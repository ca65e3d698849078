//! Domain-name (qname) encoding and decoding on the 512-byte frame.
//!
//! On the wire a name is a run of length-prefixed labels ending in a zero
//! byte.  A length byte with both top bits set is a compression pointer: its
//! lower 14 bits are an absolute offset at which decoding continues.  Only
//! the first pointer moves the persistent cursor (to two bytes past the
//! pointer word); at most `MAX_JUMPS` traversals are allowed.
//!
//! Names are treated as ASCII throughout, as the wire format intends:
//! decoding folds only the ASCII upper-case letters and replaces any byte
//! outside the ASCII range with `?` rather than attempting a UTF-8
//! interpretation, and encoding writes each character's code point
//! truncated to one byte.  The round-trip law is stated for ASCII names.

use vstd::prelude::*;

use crate::byte_buffer::{ByteBuffer, DnsError, FRAME_SIZE};

verus! {

/// Hard cap on compression-pointer traversals while decoding one name.
pub const MAX_JUMPS: usize = 5;

// ------------------------------------------------------------------
// Encoding model
// ------------------------------------------------------------------

/// The byte a character is written as: its code point, truncated.
pub open spec fn char_byte(c: char) -> u8 {
    c as u8
}

/// The dot-separated labels of a name, exactly as `split('.')` yields them:
/// always at least one label, and empty labels are kept.
pub open spec fn split_labels(s: Seq<char>) -> Seq<Seq<char>>
    decreases s.len(),
{
    if s.len() == 0 {
        seq![Seq::<char>::empty()]
    } else {
        let init = split_labels(s.drop_last());
        if s.last() == '.' {
            init.push(Seq::<char>::empty())
        } else {
            init.update(init.len() - 1, init.last().push(s.last()))
        }
    }
}

/// The bytes of one label's characters.
pub open spec fn label_bytes(l: Seq<char>) -> Seq<u8> {
    l.map_values(|c: char| char_byte(c))
}

/// One label on the wire: a length byte then the label's bytes.
pub open spec fn encoded_label(l: Seq<char>) -> Seq<u8> {
    seq![l.len() as u8] + label_bytes(l)
}

/// A run of labels on the wire, without the terminator.
pub open spec fn labels_bytes(ls: Seq<Seq<char>>) -> Seq<u8>
    decreases ls.len(),
{
    if ls.len() == 0 {
        Seq::<u8>::empty()
    } else {
        encoded_label(ls[0]) + labels_bytes(ls.drop_first())
    }
}

/// The full wire form of a name: its labels then the zero terminator.
/// Write-side encoding never uses compression.
pub open spec fn qname_bytes(s: Seq<char>) -> Seq<u8> {
    labels_bytes(split_labels(s)) + seq![0u8]
}

/// A name the codec round-trips: ASCII characters only, and every label
/// between 1 and 63 bytes long.
pub open spec fn qname_wf(s: Seq<char>) -> bool {
    (forall|i: int| 0 <= i < s.len() ==> ((#[trigger] s[i]) as int) < 128) && (forall|i: int|
        0 <= i < split_labels(s).len() ==> 1 <= (#[trigger] split_labels(s)[i]).len() <= 63)
}

// ------------------------------------------------------------------
// Decoding model
// ------------------------------------------------------------------

/// How a decoded byte is rendered: ASCII upper case folds to lower case,
/// other ASCII bytes stand for themselves, and non-ASCII bytes are replaced.
pub open spec fn display_u8(b: u8) -> u8 {
    if 65 <= b && b <= 90 {
        (b + 32) as u8
    } else if b < 128 {
        b
    } else {
        63u8
    }
}

/// The dot-joined rendering of decoded labels, still as ASCII bytes.
pub open spec fn join_bytes(ls: Seq<Seq<u8>>) -> Seq<u8>
    decreases ls.len(),
{
    if ls.len() == 0 {
        Seq::<u8>::empty()
    } else if ls.len() == 1 {
        ls[0].map_values(|b: u8| display_u8(b))
    } else {
        ls[0].map_values(|b: u8| display_u8(b)) + seq![46u8] + join_bytes(ls.drop_first())
    }
}

/// The dot-joined rendering of decoded labels, as characters.
pub open spec fn join_labels(ls: Seq<Seq<u8>>) -> Seq<char> {
    join_bytes(ls).map_values(|b: u8| b as char)
}

/// The outcome of decoding a name from a frame: the raw label bytes and the
/// persistent cursor position after the name, or the error.
pub enum QnameDecode {
    Done { labels: Seq<Seq<u8>>, end: int },
    Fail { err: DnsError },
}

/// The decode of the name at `pos`, with `jumps` pointer traversals already
/// taken and `fj` the cursor position owed to the first pointer, if one was
/// already seen.  Mirrors the reader: a position outside the frame fails
/// before the traversal cap is checked, and a label must end strictly
/// before the last frame byte.
pub open spec fn decode_qname_at(buf: Seq<u8>, pos: int, jumps: int, fj: Option<int>) -> QnameDecode
    decreases 6 - jumps, 512 - pos,
{
    if pos < 0 || pos >= 512 {
        QnameDecode::Fail { err: DnsError::BufferOverflow }
    } else if jumps > MAX_JUMPS {
        QnameDecode::Fail { err: DnsError::MalformedName }
    } else {
        let len = buf[pos];
        if len >= 192 {
            if pos + 1 >= 512 {
                QnameDecode::Fail { err: DnsError::BufferOverflow }
            } else if jumps < 6 {
                let target = (len - 192) * 256 + buf[pos + 1];
                let nfj = if fj is Some {
                    fj
                } else {
                    Some(pos + 2)
                };
                decode_qname_at(buf, target as int, jumps + 1, nfj)
            } else {
                // unreachable: jumps <= MAX_JUMPS here
                QnameDecode::Fail { err: DnsError::MalformedName }
            }
        } else if len == 0 {
            QnameDecode::Done {
                labels: Seq::<Seq<u8>>::empty(),
                end: match fj {
                    Some(e) => e,
                    None => pos + 1,
                },
            }
        } else {
            if pos + 1 >= 512 || pos + 1 + len >= 512 {
                QnameDecode::Fail { err: DnsError::BufferOverflow }
            } else {
                match decode_qname_at(buf, pos + 1 + len, jumps, fj) {
                    QnameDecode::Done { labels, end } => QnameDecode::Done {
                        labels: seq![buf.subrange(pos + 1, pos + 1 + len)] + labels,
                        end,
                    },
                    QnameDecode::Fail { err } => QnameDecode::Fail { err },
                }
            }
        }
    }
}

/// `d` with `acc` prepended to its labels, when it succeeded.
pub open spec fn prepend_labels(acc: Seq<Seq<u8>>, d: QnameDecode) -> QnameDecode {
    match d {
        QnameDecode::Done { labels, end } => QnameDecode::Done { labels: acc + labels, end },
        QnameDecode::Fail { err } => QnameDecode::Fail { err },
    }
}

/// Second loop measure: distance to the end of the frame, clamped.
pub open spec fn frame_remaining(pos: int) -> int {
    if 0 <= pos && pos <= 512 {
        512 - pos
    } else {
        0
    }
}

// ------------------------------------------------------------------
// Lemmas shared by the encoder and the round-trip law
// ------------------------------------------------------------------

/// `split('.')` always yields at least one (possibly empty) label.
pub proof fn lemma_split_labels_len(s: Seq<char>)
    ensures
        split_labels(s).len() >= 1,
    decreases s.len(),
{
    if s.len() > 0 {
        lemma_split_labels_len(s.drop_last());
    }
}

/// Appending one label to a run appends its encoding to the run's bytes.
pub proof fn lemma_labels_bytes_push(ls: Seq<Seq<char>>, l: Seq<char>)
    ensures
        labels_bytes(ls.push(l)) == labels_bytes(ls) + encoded_label(l),
    decreases ls.len(),
{
    if ls.len() == 0 {
        assert(ls.push(l).drop_first() =~= ls);
        assert(ls.push(l)[0] == l);
        assert(labels_bytes(ls.push(l)) =~= labels_bytes(ls) + encoded_label(l));
    } else {
        assert(ls.push(l).drop_first() =~= ls.drop_first().push(l));
        assert(ls.push(l)[0] == ls[0]);
        lemma_labels_bytes_push(ls.drop_first(), l);
        assert(labels_bytes(ls.push(l)) =~= labels_bytes(ls) + encoded_label(l));
    }
}

/// Appending one decoded label to the rendering adds a dot (when a label
/// was already rendered) and the label's displayed bytes.
pub proof fn lemma_join_bytes_push(ls: Seq<Seq<u8>>, l: Seq<u8>)
    ensures
        join_bytes(ls.push(l)) == join_bytes(ls) + (if ls.len() == 0 {
            Seq::<u8>::empty()
        } else {
            seq![46u8]
        }) + l.map_values(|b: u8| display_u8(b)),
    decreases ls.len(),
{
    if ls.len() == 0 {
        assert(ls.push(l)[0] == l);
        assert(join_bytes(ls.push(l)) =~= join_bytes(ls) + Seq::<u8>::empty() + l.map_values(
            |b: u8| display_u8(b),
        ));
    } else {
        assert(ls.push(l).drop_first() =~= ls.drop_first().push(l));
        assert(ls.push(l)[0] == ls[0]);
        lemma_join_bytes_push(ls.drop_first(), l);
        assert(join_bytes(ls.push(l)) =~= join_bytes(ls) + (if ls.len() == 0 {
            Seq::<u8>::empty()
        } else {
            seq![46u8]
        }) + l.map_values(|b: u8| display_u8(b)));
    }
}

/// Prepending no labels changes nothing.
pub proof fn lemma_prepend_empty(d: QnameDecode)
    ensures
        prepend_labels(Seq::<Seq<u8>>::empty(), d) == d,
{
    match d {
        QnameDecode::Done { labels, end } => {
            assert(Seq::<Seq<u8>>::empty() + labels =~= labels);
        },
        QnameDecode::Fail { err } => {},
    }
}

/// Prepending labels one at a time composes.
pub proof fn lemma_prepend_push(acc: Seq<Seq<u8>>, l: Seq<u8>, d: QnameDecode)
    ensures
        prepend_labels(acc, prepend_labels(seq![l], d)) == prepend_labels(acc.push(l), d),
{
    match d {
        QnameDecode::Done { labels, end } => {
            assert(acc + (seq![l] + labels) =~= acc.push(l) + labels);
        },
        QnameDecode::Fail { err } => {},
    }
}

/// A decode that ends at a terminator yields exactly the accumulated labels.
pub proof fn lemma_prepend_done(acc: Seq<Seq<u8>>, end: int)
    ensures
        prepend_labels(acc, QnameDecode::Done { labels: Seq::<Seq<u8>>::empty(), end })
            == (QnameDecode::Done { labels: acc, end }),
{
    assert(acc + Seq::<Seq<u8>>::empty() =~= acc);
}

/// Unfolding one ordinary label off the front of a decode.
pub proof fn lemma_decode_label_step(buf: Seq<u8>, pos: int, jumps: int, fj: Option<int>)
    requires
        0 <= pos < 512,
        0 <= jumps <= MAX_JUMPS,
        1 <= buf[pos] < 192,
        pos + 1 + buf[pos] < 512,
    ensures
        decode_qname_at(buf, pos, jumps, fj) == prepend_labels(
            seq![buf.subrange(pos + 1, pos + 1 + buf[pos])],
            decode_qname_at(buf, pos + 1 + buf[pos], jumps, fj),
        ),
{
    match decode_qname_at(buf, pos + 1 + buf[pos], jumps, fj) {
        QnameDecode::Done { labels, end } => {},
        QnameDecode::Fail { err } => {},
    }
}

/// ASCII lower-casing of one character.
pub open spec fn lower_char(c: char) -> char {
    if 65 <= c as int <= 90 {
        (((c as u8) + 32) as u8) as char
    } else {
        c
    }
}

/// ASCII lower-casing of a whole name.
pub open spec fn lower_name(s: Seq<char>) -> Seq<char> {
    s.map_values(|c: char| lower_char(c))
}

/// Decoding a pointer-free run of well-sized labels succeeds and yields
/// exactly those labels.
pub proof fn lemma_decode_plain(buf: Seq<u8>, pos: int, ls: Seq<Seq<char>>, jumps: int, fjp: Option<int>)
    requires
        buf.len() == 512,
        0 <= pos,
        pos + labels_bytes(ls).len() + 1 <= 512,
        0 <= jumps <= MAX_JUMPS,
        forall|i: int| 0 <= i < ls.len() ==> 1 <= (#[trigger] ls[i]).len() <= 63,
        buf.subrange(pos, pos + labels_bytes(ls).len() + 1) == labels_bytes(ls) + seq![0u8],
    ensures
        decode_qname_at(buf, pos, jumps, fjp) == (QnameDecode::Done {
            labels: ls.map_values(|l: Seq<char>| label_bytes(l)),
            end: match fjp {
                Some(e) => e,
                None => pos + labels_bytes(ls).len() + 1,
            },
        }),
    decreases ls.len(),
{
    let w = labels_bytes(ls) + seq![0u8];
    assert(buf[pos] == buf.subrange(pos, pos + w.len() as int)[0]);
    if ls.len() == 0 {
        assert(buf[pos] == 0);
        assert(ls.map_values(|l: Seq<char>| label_bytes(l)) =~= Seq::<Seq<u8>>::empty());
    } else {
        let l0 = ls[0];
        let len0 = l0.len() as int;
        let rest = ls.drop_first();
        assert(encoded_label(l0)[0] == l0.len() as u8);
        assert(w[0] == l0.len() as u8);
        assert(buf[pos] == len0);
        let npos = pos + 1 + len0;
        assert(labels_bytes(ls).len() == 1 + len0 + labels_bytes(rest).len());
        assert(buf.subrange(pos + 1, pos + 1 + len0) =~= label_bytes(l0)) by {
            assert forall|j: int| 0 <= j < len0 implies buf.subrange(pos + 1, pos + 1 + len0)[j]
                == label_bytes(l0)[j] by {
                assert(buf[pos + 1 + j] == buf.subrange(pos, pos + w.len() as int)[1 + j]);
                assert(w[1 + j] == encoded_label(l0)[1 + j]);
            }
        }
        assert(buf.subrange(npos, npos + labels_bytes(rest).len() + 1) =~= labels_bytes(rest)
            + seq![0u8]) by {
            assert forall|j: int| 0 <= j < labels_bytes(rest).len() + 1 implies buf.subrange(
                npos,
                npos + labels_bytes(rest).len() + 1,
            )[j] == (labels_bytes(rest) + seq![0u8])[j] by {
                assert(buf[npos + j] == buf.subrange(pos, pos + w.len() as int)[1 + len0 + j]);
                assert(w[1 + len0 + j] == (labels_bytes(rest) + seq![0u8])[j]);
            }
        }
        lemma_decode_plain(buf, npos, rest, jumps, fjp);
        assert(seq![buf.subrange(pos + 1, pos + 1 + len0)] + rest.map_values(
            |l: Seq<char>| label_bytes(l),
        ) =~= ls.map_values(|l: Seq<char>| label_bytes(l)));
    }
}

/// Rendering a run of labels whose last label grows by one byte appends
/// that byte's displayed form to the rendering.
pub proof fn lemma_join_bytes_extend_last(ls: Seq<Seq<u8>>, b: u8)
    requires
        ls.len() >= 1,
    ensures
        join_bytes(ls.update(ls.len() - 1, ls.last().push(b))) == join_bytes(ls).push(
            display_u8(b),
        ),
    decreases ls.len(),
{
    let u = ls.update(ls.len() - 1, ls.last().push(b));
    if ls.len() == 1 {
        assert(u[0] == ls[0].push(b));
        assert(u[0].map_values(|x: u8| display_u8(x)) =~= ls[0].map_values(
            |x: u8| display_u8(x),
        ).push(display_u8(b)));
    } else {
        let lsd = ls.drop_first();
        assert(u[0] == ls[0]);
        assert(u.drop_first() =~= lsd.update(lsd.len() - 1, lsd.last().push(b)));
        lemma_join_bytes_extend_last(lsd, b);
        assert(join_bytes(u) =~= join_bytes(ls).push(display_u8(b)));
    }
}

/// Splitting a name into labels and rendering the labels' bytes gives the
/// name back, character by character, through the displayed form.
pub proof fn lemma_join_split(s: Seq<char>)
    ensures
        join_bytes(split_labels(s).map_values(|l: Seq<char>| label_bytes(l))) == s.map_values(
            |c: char| display_u8(char_byte(c)),
        ),
    decreases s.len(),
{
    if s.len() == 0 {
        assert(split_labels(s).map_values(|l: Seq<char>| label_bytes(l)) =~~= seq![
            Seq::<u8>::empty(),
        ]);
        assert(join_bytes(seq![Seq::<u8>::empty()]) =~= s.map_values(
            |c: char| display_u8(char_byte(c)),
        ));
    } else {
        let sp = s.drop_last();
        let c = s.last();
        let init = split_labels(sp);
        let mp = init.map_values(|l: Seq<char>| label_bytes(l));
        lemma_split_labels_len(sp);
        lemma_join_split(sp);
        assert(s.map_values(|c0: char| display_u8(char_byte(c0))) =~= sp.map_values(
            |c0: char| display_u8(char_byte(c0)),
        ).push(display_u8(char_byte(c))));
        if c == '.' {
            assert(char_byte('.') == 46);
            assert(display_u8(46) == 46);
            assert(split_labels(s).map_values(|l: Seq<char>| label_bytes(l)) =~~= mp.push(
                Seq::<u8>::empty(),
            ));
            lemma_join_bytes_push(mp, Seq::<u8>::empty());
            assert(Seq::<u8>::empty().map_values(|x: u8| display_u8(x)) =~= Seq::<u8>::empty());
            assert(join_bytes(mp.push(Seq::<u8>::empty())) =~= join_bytes(mp).push(46u8));
        } else {
            assert(split_labels(s) == init.update(init.len() - 1, init.last().push(c)));
            assert(split_labels(s).map_values(|l: Seq<char>| label_bytes(l)) =~~= mp.update(
                mp.len() - 1,
                mp.last().push(char_byte(c)),
            ));
            lemma_join_bytes_extend_last(mp, char_byte(c));
        }
    }
}

/// The qname round-trip law: a name with ASCII labels of length 1 to 63,
/// written at `pos` without compression, reads back as its lower-cased
/// self, with the cursor ending right after the terminator.
pub proof fn lemma_qname_round_trip(buf: Seq<u8>, pos: int, s: Seq<char>)
    requires
        buf.len() == 512,
        0 <= pos,
        pos + qname_bytes(s).len() <= 512,
        buf.subrange(pos, pos + qname_bytes(s).len()) == qname_bytes(s),
        qname_wf(s),
    ensures
        decode_qname_at(buf, pos, 0, None::<int>) == (QnameDecode::Done {
            labels: split_labels(s).map_values(|l: Seq<char>| label_bytes(l)),
            end: pos + qname_bytes(s).len(),
        }),
        join_labels(split_labels(s).map_values(|l: Seq<char>| label_bytes(l))) == lower_name(s),
{
    lemma_decode_plain(buf, pos, split_labels(s), 0, None::<int>);
    lemma_join_split(s);
    let m = split_labels(s).map_values(|l: Seq<char>| label_bytes(l));
    assert(join_labels(m) =~= lower_name(s)) by {
        assert(join_bytes(m) == s.map_values(|c: char| display_u8(char_byte(c))));
        assert forall|i: int| 0 <= i < s.len() implies join_labels(m)[i] == lower_name(s)[i] by {
            assert((s[i] as int) < 128);
            assert(join_labels(m)[i] == display_u8(char_byte(s[i])) as char);
        }
        assert(join_labels(m).len() == s.len());
    }
}

/// The traversal cap, in general: once five pointers have been followed,
/// a sixth pointer fails, whatever the frame holds — with `MalformedName`
/// when its target lies in the frame, with `BufferOverflow` when it does
/// not.  (`lemma_decode_plain` gives the matching positive half: a plain
/// label run still decodes after up to five traversals.)
pub proof fn lemma_sixth_pointer_fails(buf: Seq<u8>, pos: int, fj: Option<int>)
    requires
        0 <= pos < 512,
        buf[pos] >= 192,
        pos + 1 < 512,
    ensures
        decode_qname_at(buf, pos, MAX_JUMPS as int, fj) is Fail,
{
    let len = buf[pos];
    let target = (len - 192) * 256 + buf[pos + 1];
    let nfj = if fj is Some {
        fj
    } else {
        Some(pos + 2)
    };
    assert(decode_qname_at(buf, target as int, 6, nfj) is Fail);
}

// ------------------------------------------------------------------
// Executable encoder and decoder
// ------------------------------------------------------------------

/// Relies on `String::from_utf8_lossy`: ASCII bytes are valid UTF-8 and
/// decode to the characters with the same code points.
#[verifier::external_body]
pub(crate) fn ascii_string(bytes: &Vec<u8>) -> (r: String)
    requires
        forall|i: int| 0 <= i < bytes@.len() ==> bytes@[i] < 128,
    ensures
        r@ == bytes@.map_values(|b: u8| b as char),
{
    String::from_utf8_lossy(bytes.as_slice()).into_owned()
}

/// The displayed form of one decoded byte; see `display_u8`.
fn display_byte(b: u8) -> (r: u8)
    ensures
        r == display_u8(b),
{
    if 65 <= b && b <= 90 {
        b + 32
    } else if b < 128 {
        b
    } else {
        63
    }
}

/// The complete wire form of `qname`, label by label.
fn qname_encode_vec(qname: &str) -> (r: Vec<u8>)
    ensures
        r@ == qname_bytes(qname@),
{
    let n = qname.unicode_len();
    let mut enc: Vec<u8> = Vec::new();
    let mut cur: Vec<u8> = Vec::new();
    let ghost mut done: Seq<Seq<char>> = Seq::empty();
    let ghost mut curg: Seq<char> = Seq::empty();
    proof {
        assert(qname@.subrange(0, 0) =~= Seq::<char>::empty());
        assert(done.push(curg) =~= seq![Seq::<char>::empty()]);
        assert(label_bytes(curg) =~= Seq::<u8>::empty());
    }
    let mut i: usize = 0;
    while i < n
        invariant
            i <= n,
            n == qname@.len(),
            split_labels(qname@.subrange(0, i as int)) == done.push(curg),
            enc@ == labels_bytes(done),
            cur@ == label_bytes(curg),
        decreases n - i,
    {
        let c = qname.get_char(i);
        proof {
            assert(qname@.subrange(0, i + 1).drop_last() =~= qname@.subrange(0, i as int));
            assert(qname@.subrange(0, i + 1).last() == qname@[i as int]);
            lemma_split_labels_len(qname@.subrange(0, i as int));
        }
        if c == '.' {
            enc.push(#[verifier::truncate] (cur.len() as u8));
            enc.append(&mut cur);
            proof {
                lemma_labels_bytes_push(done, curg);
                assert(enc@ =~= labels_bytes(done.push(curg)));
                done = done.push(curg);
                curg = Seq::empty();
                assert(cur@ =~= label_bytes(curg));
                assert(split_labels(qname@.subrange(0, i + 1)) =~= done.push(curg));
            }
        } else {
            cur.push(#[verifier::truncate] (c as u8));
            proof {
                let ghost prev = done.push(curg);
                curg = curg.push(c);
                assert(cur@ =~= label_bytes(curg));
                assert(prev.last() == prev[prev.len() - 1]);
                assert(prev.update(prev.len() - 1, prev.last().push(c)) =~= done.push(curg));
            }
        }
        i = i + 1;
    }
    proof {
        assert(qname@.subrange(0, n as int) =~= qname@);
    }
    enc.push(#[verifier::truncate] (cur.len() as u8));
    enc.append(&mut cur);
    proof {
        lemma_labels_bytes_push(done, curg);
        assert(enc@ =~= labels_bytes(done.push(curg)));
    }
    enc.push(0);
    proof {
        assert(enc@ =~= qname_bytes(qname@));
    }
    enc
}

impl ByteBuffer {
    /// Write `qname` at the cursor in wire form, without compression.
    pub fn write_qname(&mut self, qname: &str) -> (r: Result<(), DnsError>)
        requires
            old(self).wf(),
        ensures
            final(self).wf(),
            final(self).position >= old(self).position,
            old(self).position <= FRAME_SIZE ==> final(self).buffer@.subrange(
                0,
                old(self).position as int,
            ) == old(self).buffer@.subrange(0, old(self).position as int),
            old(self).position > FRAME_SIZE ==> final(self).buffer@ == old(self).buffer@,
            old(self).position + qname_bytes(qname@).len() <= FRAME_SIZE ==> {
                &&& r is Ok
                &&& final(self).buffer@ == old(self).buffer@.subrange(
                    0,
                    old(self).position as int,
                ) + qname_bytes(qname@) + old(self).buffer@.subrange(
                    old(self).position + qname_bytes(qname@).len(),
                    FRAME_SIZE as int,
                )
                &&& final(self).position == old(self).position + qname_bytes(qname@).len()
            },
            old(self).position + qname_bytes(qname@).len() > FRAME_SIZE ==> r == Err::<(),
                DnsError,
            >(DnsError::BufferOverflow),
    {
        let enc = qname_encode_vec(qname);
        let ghost p0 = self.position as int;
        let ghost b0 = self.buffer@;
        let mut i: usize = 0;
        let mut failed = false;
        while i < enc.len()
            invariant_except_break
                !failed,
            invariant
                self.wf(),
                i <= enc@.len(),
                enc@ == qname_bytes(qname@),
                b0.len() == FRAME_SIZE,
                self.position == p0 + i,
                p0 <= FRAME_SIZE ==> p0 + i <= FRAME_SIZE,
                p0 <= FRAME_SIZE ==> self.buffer@ =~= b0.subrange(0, p0) + enc@.subrange(
                    0,
                    i as int,
                ) + b0.subrange(p0 + i, FRAME_SIZE as int),
                p0 > FRAME_SIZE ==> i == 0 && self.buffer@ == b0,
            ensures
                self.wf(),
                i <= enc@.len(),
                self.position == p0 + i,
                p0 <= FRAME_SIZE ==> p0 + i <= FRAME_SIZE,
                p0 <= FRAME_SIZE ==> self.buffer@ =~= b0.subrange(0, p0) + enc@.subrange(
                    0,
                    i as int,
                ) + b0.subrange(p0 + i, FRAME_SIZE as int),
                p0 > FRAME_SIZE ==> i == 0 && self.buffer@ == b0,
                failed ==> p0 + i >= FRAME_SIZE && i < enc@.len(),
                !failed ==> i == enc@.len(),
            decreases enc@.len() - i,
        {
            let b = enc[i];
            match self.write(b) {
                Ok(_) => {},
                Err(e) => {
                    failed = true;
                    break;
                },
            }
            proof {
                assert(enc@.subrange(0, i + 1) =~= enc@.subrange(0, i as int).push(enc@[i as int]));
            }
            i = i + 1;
        }
        proof {
            if p0 <= FRAME_SIZE {
                assert(self.buffer@.subrange(0, p0) =~= b0.subrange(0, p0));
            }
        }
        if failed {
            return Err(DnsError::BufferOverflow);
        }
        proof {
            assert(enc@.subrange(0, enc@.len() as int) =~= enc@);
        }
        Ok(())
    }

    /// Read the name at the cursor, following compression pointers, and
    /// append its dot-joined, case-folded rendering to `out`.
    pub fn read_qname(&mut self, out: &mut String) -> (r: Result<(), DnsError>)
        requires
            old(self).wf(),
        ensures
            final(self).wf(),
            final(self).buffer@ == old(self).buffer@,
            match decode_qname_at(old(self).buffer@, old(self).position as int, 0, None::<int>) {
                QnameDecode::Done { labels, end } => {
                    &&& r is Ok
                    &&& final(out)@ == old(out)@ + join_labels(labels)
                    &&& final(self).position == end
                },
                QnameDecode::Fail { err } => r == Err::<(), DnsError>(err),
            },
    {
        let ghost b0 = self.buffer@;
        let ghost p0 = self.position as int;
        let ghost full = decode_qname_at(b0, p0, 0, None::<int>);
        let mut position: usize = self.position;
        let mut jumps: usize = 0;
        let mut jump = false;
        let mut first = true;
        let mut name_bytes: Vec<u8> = Vec::new();
        let ghost mut acc: Seq<Seq<u8>> = Seq::empty();
        let ghost mut fj: Option<int> = None;
        let mut outcome: Result<(), DnsError> = Ok(());
        proof {
            lemma_prepend_empty(full);
        }
        loop
            invariant_except_break
                prepend_labels(acc, decode_qname_at(b0, position as int, jumps as int, fj))
                    == full,
                name_bytes@ == join_bytes(acc),
                forall|j: int| 0 <= j < name_bytes@.len() ==> name_bytes@[j] < 128,
                first <==> acc.len() == 0,
                jumps <= MAX_JUMPS + 1,
                match fj {
                    None => jump == false && self.position == p0,
                    Some(e) => jump == true && self.position == e && 0 <= e <= 512,
                },
            invariant
                self.wf(),
                self.buffer@ == b0,
                b0.len() == FRAME_SIZE,
                p0 == old(self).position,
            ensures
                match outcome {
                    Ok(_) => match full {
                        QnameDecode::Done { labels, end } => {
                            &&& name_bytes@ == join_bytes(labels)
                            &&& (forall|j: int|
                                0 <= j < name_bytes@.len() ==> name_bytes@[j] < 128)
                            &&& (jump ==> self.position == end)
                            &&& (!jump ==> end == position as int && self.position == p0)
                        },
                        QnameDecode::Fail { err } => false,
                    },
                    Err(e) => full == (QnameDecode::Fail { err: e }),
                },
            decreases 6 - jumps, frame_remaining(position as int),
        {
            let ghost ppos = position as int;
            let len = match self.get(position) {
                Ok(v) => v,
                Err(e) => {
                    outcome = Err(e);
                    break;
                },
            };
            if jumps > MAX_JUMPS {
                outcome = Err(DnsError::MalformedName);
                break;
            }
            if len >= 192 {
                let b2 = match self.get(position + 1) {
                    Ok(v) => v,
                    Err(e) => {
                        outcome = Err(e);
                        break;
                    },
                };
                if !jump {
                    let _ = self.seek(position + 2);
                    proof {
                        fj = Some(ppos + 2);
                    }
                }
                jump = true;
                jumps = jumps + 1;
                position = ((len - 192) as usize) * 256 + (b2 as usize);
            } else {
                position = position + 1;
                if len == 0 {
                    proof {
                        lemma_prepend_done(
                            acc,
                            match fj {
                                Some(e) => e,
                                None => ppos + 1,
                            },
                        );
                    }
                    outcome = Ok(());
                    break;
                }
                let lbytes = match self.get_range(position, len as usize) {
                    Ok(v) => v,
                    Err(e) => {
                        outcome = Err(e);
                        break;
                    },
                };
                if first {
                    first = false;
                } else {
                    name_bytes.push(46);
                }
                let ghost nb1 = name_bytes@;
                let mut k: usize = 0;
                while k < lbytes.len()
                    invariant
                        k <= lbytes@.len(),
                        name_bytes@ == nb1 + lbytes@.subrange(0, k as int).map_values(
                            |b: u8| display_u8(b),
                        ),
                        forall|j: int| 0 <= j < nb1.len() ==> nb1[j] < 128,
                        forall|j: int| 0 <= j < name_bytes@.len() ==> name_bytes@[j] < 128,
                    decreases lbytes@.len() - k,
                {
                    let db = display_byte(lbytes[k]);
                    name_bytes.push(db);
                    proof {
                        assert(lbytes@.subrange(0, k + 1) =~= lbytes@.subrange(0, k as int).push(
                            lbytes@[k as int],
                        ));
                        assert(lbytes@.subrange(0, k + 1).map_values(|b: u8| display_u8(b))
                            =~= lbytes@.subrange(0, k as int).map_values(
                            |b: u8| display_u8(b),
                        ).push(display_u8(lbytes@[k as int])));
                    }
                    k = k + 1;
                }
                proof {
                    let l = lbytes@;
                    assert(lbytes@.subrange(0, lbytes@.len() as int) =~= lbytes@);
                    lemma_join_bytes_push(acc, l);
                    lemma_decode_label_step(b0, ppos, jumps as int, fj);
                    lemma_prepend_push(
                        acc,
                        l,
                        decode_qname_at(b0, ppos + 1 + b0[ppos], jumps as int, fj),
                    );
                    acc = acc.push(l);
                }
                position = position + (len as usize);
            }
        }
        match outcome {
            Ok(_) => {
                if !jump {
                    let _ = self.seek(position);
                }
                let add = ascii_string(&name_bytes);
                out.append(add.as_str());
                Ok(())
            },
            Err(e) => Err(e),
        }
    }
}

} // verus!

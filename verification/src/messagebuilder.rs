//! The message codec: the header line as text, a whole-message encoder, and
//! the resumable decoder that rebuilds messages from arbitrary byte chunks.

use vstd::prelude::*;
use vstd::slice::slice_subrange;
use vstd::string::StringSliceAdditionalSpecFns;
use vstd::utf8::{decode_utf8, encode_utf8, valid_utf8};
use crate::model::{bytes_as_str, Header, Message, MessageV, ServerError};
use crate::numtext::{
    dec_bytes, dec_bytes_signed, i64_to_dec, is_digit, lemma_dec_bytes_val,
    lemma_parse_i64_roundtrip, lemma_parse_uint_roundtrip, parse_i64_bytes, parse_usize_bytes,
    spec_parse_i64, spec_parse_uint, usize_to_dec,
};
use crate::utils::{lemma_ascii_bytes, push_all};

verus! {

// ------------------------------------------------------------------
// The header line as text
// ------------------------------------------------------------------
/// `s` with every leading and trailing newline byte removed, as
/// `str::trim_matches('\n')` leaves it.
pub open spec fn trim_nl(s: Seq<u8>) -> Seq<u8>
    decreases s.len(),
{
    if s.len() > 0 && s[0] == 10 {
        trim_nl(s.drop_first())
    } else if s.len() > 0 && s.last() == 10 {
        trim_nl(s.drop_last())
    } else {
        s
    }
}

/// `s` cut at every `';'`: one more field than there are semicolons.
pub open spec fn split_semis(s: Seq<u8>) -> Seq<Seq<u8>>
    decreases s.len(),
{
    if s.len() == 0 {
        seq![Seq::<u8>::empty()]
    } else {
        let rest = split_semis(s.drop_last());
        if s.last() == 59 {
            rest.push(Seq::<u8>::empty())
        } else {
            rest.update(rest.len() - 1, rest.last().push(s.last()))
        }
    }
}

/// Splitting yields at least one field.
pub proof fn lemma_split_semis_len(s: Seq<u8>)
    ensures
        split_semis(s).len() >= 1,
    decreases s.len(),
{
    if s.len() > 0 {
        lemma_split_semis_len(s.drop_last());
    }
}

/// What the header parser accepts: trim newlines, split on `';'`, and read
/// exactly four numeric fields.
pub open spec fn spec_parse_header(line: Seq<u8>) -> Option<Header> {
    let fs = split_semis(trim_nl(line));
    if fs.len() != 4 {
        None
    } else {
        match (
            spec_parse_uint(fs[0], usize::MAX as nat),
            spec_parse_uint(fs[1], usize::MAX as nat),
            spec_parse_i64(fs[2]),
            spec_parse_i64(fs[3]),
        ) {
            (Some(t), Some(l), Some(m), Some(a)) => Some(
                Header {
                    message_type: t as usize,
                    message_length: l as usize,
                    message_id: m as i64,
                    answer_id: a as i64,
                },
            ),
            _ => None,
        }
    }
}

/// The wire header line of `h`, terminating newline included.
pub open spec fn header_line_bytes(h: Header) -> Seq<u8> {
    dec_bytes(h.message_type as nat) + seq![59u8] + dec_bytes(h.message_length as nat)
        + seq![59u8] + dec_bytes_signed(h.message_id as int) + seq![59u8] + dec_bytes_signed(
        h.answer_id as int,
    ) + seq![10u8]
}

/// The header rendered as text: the wire line without its newline.
pub open spec fn header_text(h: Header) -> Seq<char> {
    header_line_bytes(h).drop_last().map_values(|b: u8| b as char)
}

/// The whole wire frame of a message: header line, then the raw body.
pub open spec fn encode_msg(m: MessageV) -> Seq<u8> {
    header_line_bytes(m.header) + m.body
}

// ------------------------------------------------------------------
// Lemmas: trimming and splitting
// ------------------------------------------------------------------
/// Dropping leading newlines does not change the trim.
proof fn lemma_trim_nl_skip(s: Seq<u8>, k: int)
    requires
        0 <= k <= s.len(),
        forall|j: int| 0 <= j < k ==> s[j] == 10,
    ensures
        trim_nl(s) == trim_nl(s.skip(k)),
    decreases k,
{
    if k > 0 {
        assert(s[0] == 10);
        assert(s.drop_first() =~= s.skip(1));
        lemma_trim_nl_skip(s.skip(1), k - 1);
        assert(s.skip(1).skip(k - 1) =~= s.skip(k));
    } else {
        assert(s.skip(0) =~= s);
    }
}

/// Dropping trailing newlines does not change the trim, once no leading
/// newline is left.
proof fn lemma_trim_nl_take(s: Seq<u8>, k: int)
    requires
        0 <= k <= s.len(),
        s.len() > 0 ==> s[0] != 10,
        forall|j: int| k <= j < s.len() ==> s[j] == 10,
    ensures
        trim_nl(s) == trim_nl(s.take(k)),
    decreases s.len(),
{
    if k < s.len() {
        assert(s.last() == 10);
        assert(s.len() > 0);
        lemma_trim_nl_take(s.drop_last(), k);
        assert(s.drop_last().take(k) =~= s.take(k));
    } else {
        assert(s.take(k) =~= s);
    }
}

/// A trimmed sequence with no newline at either end trims to itself.
proof fn lemma_trim_nl_clean(s: Seq<u8>)
    requires
        s.len() > 0 ==> (s[0] != 10 && s.last() != 10),
    ensures
        trim_nl(s) == s,
{
}

/// Appending a semicolon opens a fresh empty field.
proof fn lemma_split_push_semi(a: Seq<u8>)
    ensures
        split_semis(a.push(59)) == split_semis(a).push(Seq::<u8>::empty()),
{
    assert(a.push(59).drop_last() =~= a);
}

/// Appending semicolon-free bytes extends the last field.
proof fn lemma_split_append_semifree(a: Seq<u8>, b: Seq<u8>)
    requires
        forall|j: int| 0 <= j < b.len() ==> b[j] != 59,
    ensures
        ({
            let sa = split_semis(a);
            split_semis(a + b) == sa.update(sa.len() - 1, sa.last() + b)
        }),
    decreases b.len(),
{
    lemma_split_semis_len(a);
    let sa = split_semis(a);
    if b.len() == 0 {
        assert(a + b =~= a);
        assert(sa.update(sa.len() - 1, sa.last() + b) =~~= sa);
    } else {
        let b0 = b.drop_last();
        lemma_split_append_semifree(a, b0);
        assert(a + b =~= (a + b0).push(b.last()));
        assert(b.last() != 59);
        let sab0 = split_semis(a + b0);
        lemma_split_semis_len(a + b0);
        assert((a + b0).push(b.last()).drop_last() =~= a + b0);
        assert((a + b0).push(b.last()).last() == b.last());
        assert(split_semis((a + b0).push(b.last())) == sab0.update(
            sab0.len() - 1,
            sab0.last().push(b.last()),
        ));
        assert(sab0 == sa.update(sa.len() - 1, sa.last() + b0));
        assert(sab0.last() == sa.last() + b0);
        assert(sa.last() + b0 + seq![b.last()] =~= sa.last() + b);
        assert(sab0.update(sab0.len() - 1, sab0.last().push(b.last())) =~~= sa.update(
            sa.len() - 1,
            sa.last() + b,
        ));
    }
}

/// Splitting four semicolon-free fields joined by semicolons yields exactly
/// those fields.
proof fn lemma_split_four(f0: Seq<u8>, f1: Seq<u8>, f2: Seq<u8>, f3: Seq<u8>)
    requires
        forall|j: int| 0 <= j < f0.len() ==> f0[j] != 59,
        forall|j: int| 0 <= j < f1.len() ==> f1[j] != 59,
        forall|j: int| 0 <= j < f2.len() ==> f2[j] != 59,
        forall|j: int| 0 <= j < f3.len() ==> f3[j] != 59,
    ensures
        split_semis(f0 + seq![59u8] + f1 + seq![59u8] + f2 + seq![59u8] + f3) == seq![
            f0,
            f1,
            f2,
            f3,
        ],
{
    let e = Seq::<u8>::empty();
    lemma_split_append_semifree(e, f0);
    assert(e + f0 =~= f0);
    assert(split_semis(e) == seq![e]);
    assert(seq![e].update(0int, e + f0) =~~= seq![f0]);
    assert(split_semis(f0) == seq![f0]);

    lemma_split_push_semi(f0);
    assert(f0 + seq![59u8] =~= f0.push(59));
    assert(split_semis(f0 + seq![59u8]) == seq![f0, e]);

    lemma_split_append_semifree(f0 + seq![59u8], f1);
    assert(seq![f0, e].update(1int, e + f1) =~~= seq![f0, f1]);
    assert(split_semis(f0 + seq![59u8] + f1) == seq![f0, f1]);

    lemma_split_push_semi(f0 + seq![59u8] + f1);
    assert(f0 + seq![59u8] + f1 + seq![59u8] =~= (f0 + seq![59u8] + f1).push(59));
    assert(split_semis(f0 + seq![59u8] + f1 + seq![59u8]) == seq![f0, f1, e]);

    lemma_split_append_semifree(f0 + seq![59u8] + f1 + seq![59u8], f2);
    assert(seq![f0, f1, e].update(2int, e + f2) =~~= seq![f0, f1, f2]);
    assert(split_semis(f0 + seq![59u8] + f1 + seq![59u8] + f2) == seq![f0, f1, f2]);

    lemma_split_push_semi(f0 + seq![59u8] + f1 + seq![59u8] + f2);
    assert(f0 + seq![59u8] + f1 + seq![59u8] + f2 + seq![59u8] =~= (f0 + seq![59u8] + f1
        + seq![59u8] + f2).push(59));
    assert(split_semis(f0 + seq![59u8] + f1 + seq![59u8] + f2 + seq![59u8]) == seq![
        f0,
        f1,
        f2,
        e,
    ]);

    lemma_split_append_semifree(f0 + seq![59u8] + f1 + seq![59u8] + f2 + seq![59u8], f3);
    assert(seq![f0, f1, f2, e].update(3int, e + f3) =~~= seq![f0, f1, f2, f3]);
    assert(e + f3 =~= f3);
}

// ------------------------------------------------------------------
// Lemma: a generated header line parses back to its header
// ------------------------------------------------------------------
/// The wire header line of `h` parses back to `h` exactly; besides, its
/// only newline is the final byte and it is at least eight bytes long.
pub proof fn lemma_parse_header_line(h: Header)
    ensures
        spec_parse_header(header_line_bytes(h)) == Some(h),
        header_line_bytes(h).len() >= 8,
        header_line_bytes(h).last() == 10,
        forall|j: int|
            0 <= j < header_line_bytes(h).len() - 1 ==> #[trigger] header_line_bytes(h)[j] != 10,
{
    let f0 = dec_bytes(h.message_type as nat);
    let f1 = dec_bytes(h.message_length as nat);
    let f2 = dec_bytes_signed(h.message_id as int);
    let f3 = dec_bytes_signed(h.answer_id as int);
    lemma_dec_bytes_val(h.message_type as nat);
    lemma_dec_bytes_val(h.message_length as nat);
    if h.message_id >= 0 {
        lemma_dec_bytes_val(h.message_id as nat);
    } else {
        lemma_dec_bytes_val((-(h.message_id as int)) as nat);
    }
    if h.answer_id >= 0 {
        lemma_dec_bytes_val(h.answer_id as nat);
    } else {
        lemma_dec_bytes_val((-(h.answer_id as int)) as nat);
    }
    assert(forall|j: int| 0 <= j < f2.len() ==> f2[j] == 45 || is_digit(#[trigger] f2[j]));
    assert(forall|j: int| 0 <= j < f3.len() ==> f3[j] == 45 || is_digit(#[trigger] f3[j]));

    let core = f0 + seq![59u8] + f1 + seq![59u8] + f2 + seq![59u8] + f3;
    let line = header_line_bytes(h);
    assert(line =~= core + seq![10u8]);
    assert(forall|j: int| 0 <= j < core.len() ==> #[trigger] core[j] != 10);
    assert(core[0] == f0[0]);
    assert(core.last() == f3.last());

    // Trimming strips exactly the final newline.
    assert(line.last() == 10);
    assert(line.drop_last() =~= core);
    assert(line[0] == f0[0] && f0[0] != 10);
    lemma_trim_nl_clean(core);
    assert(trim_nl(line) == core);

    lemma_split_four(f0, f1, f2, f3);

    lemma_parse_uint_roundtrip(h.message_type as nat, usize::MAX as nat);
    lemma_parse_uint_roundtrip(h.message_length as nat, usize::MAX as nat);
    lemma_parse_i64_roundtrip(h.message_id as int);
    lemma_parse_i64_roundtrip(h.answer_id as int);
}

// ------------------------------------------------------------------
// Exec: parsing and rendering the header line
// ------------------------------------------------------------------
/// Strips leading and trailing newline bytes.
fn trim_nl_bytes(s: &[u8]) -> (r: &[u8])
    ensures
        r@ == trim_nl(s@),
{
    let mut lo: usize = 0;
    while lo < s.len() && s[lo] == 10
        invariant
            0 <= lo <= s@.len(),
            forall|j: int| 0 <= j < lo ==> s@[j] == 10,
        decreases s@.len() - lo,
    {
        lo = lo + 1;
    }
    proof {
        lemma_trim_nl_skip(s@, lo as int);
    }
    let mut hi: usize = s.len();
    while hi > lo && s[hi - 1] == 10
        invariant
            lo <= hi <= s@.len(),
            forall|j: int| hi <= j < s@.len() ==> s@[j] == 10,
        decreases hi,
    {
        hi = hi - 1;
    }
    let t = slice_subrange(s, lo, hi);
    proof {
        let sk = s@.skip(lo as int);
        assert(forall|j: int|
            hi - lo <= j < sk.len() ==> #[trigger] sk[j] == s@[j + lo] && sk[j] == 10);
        assert(sk.len() > 0 ==> sk[0] != 10);
        lemma_trim_nl_take(sk, hi - lo);
        assert(sk.take(hi - lo) =~= s@.subrange(lo as int, hi as int));
        if hi > lo {
            assert(t@[0] == s@[lo as int] && t@[0] != 10);
            assert(t@.last() == s@[hi - 1] && t@.last() != 10);
        }
        lemma_trim_nl_clean(t@);
    }
    t
}

/// Reads the four `';'`-separated numeric fields of a header line,
/// tolerating surrounding newlines, exactly as [`spec_parse_header`] says.
pub fn parse_header_bytes(line: &[u8]) -> (r: Result<Header, ServerError>)
    ensures
        match r {
            Ok(h) => spec_parse_header(line@) == Some(h),
            Err(e) => spec_parse_header(line@) is None && e == ServerError::BadHeader,
        },
{
    let t = trim_nl_bytes(line);
    let mut done: Vec<Vec<u8>> = Vec::new();
    let mut cur: Vec<u8> = Vec::new();
    let mut k: usize = 0;
    while k < t.len()
        invariant
            0 <= k <= t@.len(),
            done.deep_view().push(cur@) == split_semis(t@.take(k as int)),
        decreases t@.len() - k,
    {
        let c = t[k];
        proof {
            assert(t@.take(k + 1).drop_last() =~= t@.take(k as int));
            assert(t@.take(k + 1).last() == t@[k as int]);
        }
        if c == 59 {
            let ghost old_done = done.deep_view();
            done.push(cur);
            cur = Vec::new();
            proof {
                assert(done.deep_view() =~~= old_done.push(split_semis(t@.take(k as int)).last()));
                assert(done.deep_view().push(cur@) =~~= split_semis(t@.take(k + 1)));
            }
        } else {
            let ghost old_pair = done.deep_view().push(cur@);
            cur.push(c);
            proof {
                lemma_split_semis_len(t@.take(k as int));
                assert(done.deep_view().push(cur@) =~~= old_pair.update(
                    old_pair.len() - 1,
                    old_pair.last().push(c),
                ));
            }
        }
        k = k + 1;
    }
    proof {
        assert(t@.take(t@.len() as int) =~= t@);
    }
    if done.len() != 3 {
        return Err(ServerError::BadHeader);
    }
    let fs0 = parse_usize_bytes(done[0].as_slice());
    let fs1 = parse_usize_bytes(done[1].as_slice());
    let fs2 = parse_i64_bytes(done[2].as_slice());
    let fs3 = parse_i64_bytes(cur.as_slice());
    proof {
        assert(done.deep_view()[0] == done@[0]@);
        assert(done.deep_view()[1] == done@[1]@);
        assert(done.deep_view()[2] == done@[2]@);
        assert(split_semis(t@)[0] == done.deep_view()[0]);
        assert(split_semis(t@)[1] == done.deep_view()[1]);
        assert(split_semis(t@)[2] == done.deep_view()[2]);
        assert(split_semis(t@)[3] == cur@);
    }
    match (fs0, fs1, fs2, fs3) {
        (Some(message_type), Some(message_length), Some(message_id), Some(answer_id)) => Ok(
            Header { message_type, message_length, message_id, answer_id },
        ),
        _ => Err(ServerError::BadHeader),
    }
}

impl Header {
    /// The header line fields joined by `';'`, without a newline.
    pub fn to_string(&self) -> (r: String)
        ensures
            r@ == header_text(*self),
    {
        let mut bytes = header_line_vec(self);
        proof {
            lemma_parse_header_line(*self);
        }
        let n = bytes.len() - 1;
        bytes.truncate(n);
        proof {
            assert(bytes@ =~= header_line_bytes(*self).drop_last());
            assert forall|i: int| 0 <= i < bytes@.len() implies #[trigger] bytes@[i] < 128 by {
                lemma_header_line_ascii(*self);
            }
            lemma_ascii_bytes(bytes@);
        }
        match bytes_as_str(bytes.as_slice()) {
            Some(s) => s.to_owned(),
            None => {
                proof {
                    assert(false);
                }
                String::new()
            },
        }
    }

    /// Reads a header line, as [`spec_parse_header`] says, from the UTF-8
    /// bytes of `s`.
    pub fn parse(s: &str) -> (r: Result<Header, ServerError>)
        ensures
            match r {
                Ok(h) => spec_parse_header(s.spec_bytes()) == Some(h),
                Err(e) => spec_parse_header(s.spec_bytes()) is None && e == ServerError::BadHeader,
            },
    {
        parse_header_bytes(s.as_bytes())
    }
}

/// Every byte of a header line is ASCII.
proof fn lemma_header_line_ascii(h: Header)
    ensures
        forall|i: int|
            0 <= i < header_line_bytes(h).len() ==> #[trigger] header_line_bytes(h)[i] < 128,
{
    lemma_dec_bytes_val(h.message_type as nat);
    lemma_dec_bytes_val(h.message_length as nat);
    if h.message_id >= 0 {
        lemma_dec_bytes_val(h.message_id as nat);
    } else {
        lemma_dec_bytes_val((-(h.message_id as int)) as nat);
    }
    if h.answer_id >= 0 {
        lemma_dec_bytes_val(h.answer_id as nat);
    } else {
        lemma_dec_bytes_val((-(h.answer_id as int)) as nat);
    }
}

/// The wire header line of `h`, newline included, as bytes.
fn header_line_vec(h: &Header) -> (r: Vec<u8>)
    ensures
        r@ == header_line_bytes(*h),
{
    let mut v = usize_to_dec(h.message_type);
    v.push(59);
    let f1 = usize_to_dec(h.message_length);
    push_all(&mut v, f1.as_slice());
    v.push(59);
    let f2 = i64_to_dec(h.message_id);
    push_all(&mut v, f2.as_slice());
    v.push(59);
    let f3 = i64_to_dec(h.answer_id);
    push_all(&mut v, f3.as_slice());
    v.push(10);
    proof {
        assert(v@ =~= header_line_bytes(*h));
    }
    v
}

/// Writes the whole wire frame of `msg`: its header line, then its body.
pub fn encode_message(msg: &Message) -> (r: Vec<u8>)
    ensures
        r@ == encode_msg(msg@),
{
    let mut v = header_line_vec(&msg.header);
    push_all(&mut v, msg.body.as_slice());
    v
}

// ------------------------------------------------------------------
// Framing: what a byte stream holds so far
// ------------------------------------------------------------------
/// Index of the first newline in `s`, if any.
pub open spec fn find_nl(s: Seq<u8>) -> Option<int>
    decreases s.len(),
{
    if s.len() == 0 {
        None
    } else if s[0] == 10 {
        Some(0)
    } else {
        match find_nl(s.drop_first()) {
            Some(i) => Some(i + 1),
            None => None,
        }
    }
}

/// Index of the newline that completes the header line: the first newline
/// at index three or later, so that the line is longer than the minimum.
pub open spec fn hdr_end(s: Seq<u8>) -> Option<int> {
    if s.len() <= 3 {
        None
    } else {
        match find_nl(s.skip(3)) {
            Some(i) => Some(i + 3),
            None => None,
        }
    }
}

/// What a decoder that has accepted exactly the bytes `f` holds: still
/// accumulating, stopped on a bad header, or a complete message and the
/// count of bytes it spans.
pub enum FrameState {
    Partial,
    Bad,
    Done(Header, Seq<u8>, int),
}

pub open spec fn frame(f: Seq<u8>) -> FrameState {
    match hdr_end(f) {
        None => FrameState::Partial,
        Some(e) => match spec_parse_header(f.take(e + 1)) {
            None => FrameState::Bad,
            Some(h) => if f.len() >= e + 1 + h.message_length {
                FrameState::Done(
                    h,
                    f.subrange(e + 1, e + 1 + h.message_length),
                    e + 1 + h.message_length,
                )
            } else {
                FrameState::Partial
            },
        },
    }
}

pub open spec fn min_int(a: int, b: int) -> int {
    if a <= b {
        a
    } else {
        b
    }
}

/// Bytes of `b` taken into the header buffer by one call: up to and
/// including the first newline, or all of `b`.
pub open spec fn hdr_take(b: Seq<u8>) -> int {
    match find_nl(b) {
        None => b.len() as int,
        Some(j) => j + 1,
    }
}

/// How many bytes of the chunk `b` one call consumes when the decoder has
/// accepted `f` so far.
pub open spec fn step_consumed(f: Seq<u8>, b: Seq<u8>) -> int {
    match hdr_end(f) {
        None => {
            let hc = hdr_take(b);
            let f2 = f + b.take(hc);
            match hdr_end(f2) {
                None => hc,
                Some(e) => match spec_parse_header(f2) {
                    None => hc,
                    Some(h) => hc + min_int(h.message_length as int, b.len() - hc),
                },
            }
        },
        Some(e) => match spec_parse_header(f.take(e + 1)) {
            Some(h) => min_int(h.message_length - (f.len() - (e + 1)), b.len() as int),
            None => 0,
        },
    }
}

// ------------------------------------------------------------------
// Lemmas: newline search and frame stability
// ------------------------------------------------------------------
/// `find_nl` returns the least newline index.
pub proof fn lemma_find_nl(s: Seq<u8>)
    ensures
        match find_nl(s) {
            Some(i) => 0 <= i < s.len() && s[i] == 10 && (forall|k: int| 0 <= k < i ==> s[k] != 10),
            None => forall|k: int| 0 <= k < s.len() ==> s[k] != 10,
        },
    decreases s.len(),
{
    if s.len() == 0 {
    } else if s[0] == 10 {
    } else {
        let d = s.drop_first();
        lemma_find_nl(d);
        match find_nl(d) {
            Some(i) => {
                assert(d[i] == s[i + 1]);
                assert forall|k: int| 0 <= k < i + 1 implies s[k] != 10 by {
                    if k > 0 {
                        assert(d[k - 1] == s[k]);
                    }
                }
            },
            None => {
                assert forall|k: int| 0 <= k < s.len() implies s[k] != 10 by {
                    if k > 0 {
                        assert(d[k - 1] == s[k]);
                    }
                }
            },
        }
    }
}

proof fn lemma_find_nl_at(s: Seq<u8>, i: int)
    requires
        0 <= i < s.len(),
        s[i] == 10,
        forall|k: int| 0 <= k < i ==> s[k] != 10,
    ensures
        find_nl(s) == Some(i),
{
    lemma_find_nl(s);
    match find_nl(s) {
        Some(j) => {
            if j < i {
                assert(s[j] != 10);
            }
            if i < j {
                assert(s[i] != 10);
            }
        },
        None => {
            assert(s[i] != 10);
        },
    }
}

proof fn lemma_find_nl_none(s: Seq<u8>)
    requires
        forall|k: int| 0 <= k < s.len() ==> s[k] != 10,
    ensures
        find_nl(s) is None,
{
    lemma_find_nl(s);
    match find_nl(s) {
        Some(j) => {
            assert(s[j] != 10);
        },
        None => {},
    }
}

/// `hdr_end` returns the least newline index at three or later.
pub proof fn lemma_hdr_end(s: Seq<u8>)
    ensures
        match hdr_end(s) {
            Some(e) => 3 <= e < s.len() && s[e] == 10 && (forall|k: int| 3 <= k < e ==> s[k] != 10),
            None => forall|k: int| 3 <= k < s.len() ==> s[k] != 10,
        },
{
    if s.len() > 3 {
        let d = s.skip(3);
        lemma_find_nl(d);
        match find_nl(d) {
            Some(i) => {
                assert(d[i] == s[i + 3]);
                assert forall|k: int| 3 <= k < i + 3 implies s[k] != 10 by {
                    assert(d[k - 3] == s[k]);
                }
            },
            None => {
                assert forall|k: int| 3 <= k < s.len() implies s[k] != 10 by {
                    assert(d[k - 3] == s[k]);
                }
            },
        }
    }
}

proof fn lemma_hdr_end_at(s: Seq<u8>, e: int)
    requires
        3 <= e < s.len(),
        s[e] == 10,
        forall|k: int| 3 <= k < e ==> s[k] != 10,
    ensures
        hdr_end(s) == Some(e),
{
    lemma_hdr_end(s);
    match hdr_end(s) {
        Some(e2) => {
            if e2 < e {
                assert(s[e2] != 10);
            }
            if e < e2 {
                assert(s[e] != 10);
            }
        },
        None => {
            assert(s[e] != 10);
        },
    }
}

proof fn lemma_hdr_end_none(s: Seq<u8>)
    requires
        forall|k: int| 3 <= k < s.len() ==> s[k] != 10,
    ensures
        hdr_end(s) is None,
{
    lemma_hdr_end(s);
    match hdr_end(s) {
        Some(e) => {
            assert(s[e] != 10);
        },
        None => {},
    }
}

/// A frame completed by a stream prefix stands whatever follows it.
pub proof fn lemma_frame_done_prefix(f: Seq<u8>, g: Seq<u8>)
    requires
        f.len() <= g.len(),
        g.take(f.len() as int) == f,
        frame(f) matches FrameState::Done(h, body, total) && total == f.len(),
    ensures
        frame(g) == frame(f),
{
    lemma_hdr_end(f);
    let e = hdr_end(f)->Some_0;
    assert(g[e] == f[e]);
    assert(forall|k: int| 3 <= k < e ==> g[k] == f[k] && f[k] != 10);
    lemma_hdr_end_at(g, e);
    assert(g.take(e + 1) =~= f.take(e + 1));
    let h = spec_parse_header(f.take(e + 1))->Some_0;
    assert(g.len() >= e + 1 + h.message_length);
    assert(g.subrange(e + 1, e + 1 + h.message_length) =~= f.subrange(
        e + 1,
        e + 1 + h.message_length,
    ));
}

/// A bad header detected on a stream prefix stays bad whatever follows it.
pub proof fn lemma_frame_bad_prefix(f: Seq<u8>, g: Seq<u8>)
    requires
        f.len() <= g.len(),
        g.take(f.len() as int) == f,
        frame(f) is Bad,
    ensures
        frame(g) is Bad,
{
    lemma_hdr_end(f);
    let e = hdr_end(f)->Some_0;
    assert(g[e] == f[e]);
    assert(forall|k: int| 3 <= k < e ==> g[k] == f[k] && f[k] != 10);
    lemma_hdr_end_at(g, e);
    assert(g.take(e + 1) =~= f.take(e + 1));
}

/// While a frame is incomplete, one call consumes at least one byte of a
/// non-empty chunk and never more than the chunk.
pub proof fn lemma_step_consumed_bounds(f: Seq<u8>, b: Seq<u8>)
    requires
        frame(f) is Partial,
    ensures
        0 <= step_consumed(f, b) <= b.len(),
        b.len() > 0 ==> step_consumed(f, b) >= 1,
{
    match hdr_end(f) {
        None => {
            lemma_find_nl(b);
        },
        Some(e) => {
            lemma_hdr_end(f);
        },
    }
}

// ------------------------------------------------------------------
// The resumable decoder
// ------------------------------------------------------------------
/// Incremental decoder for one message.  Feed it chunks with [`Self::process`];
/// its outcome depends only on the concatenation of the bytes it consumed,
/// never on how they were cut into chunks.
pub struct MessageBuilder {
    header_line: Vec<u8>,
    header: Option<Header>,
    body: Vec<u8>,
    fed_g: Ghost<Seq<u8>>,
}

/// What one `process` call reports: the builder to go on with, or a
/// complete message; in both cases with the count of input bytes consumed.
pub enum Processed {
    Incomplete(MessageBuilder, usize),
    Complete(Message, usize),
}

impl MessageBuilder {
    /// The bytes this builder has consumed so far.
    pub closed spec fn fed(self) -> Seq<u8> {
        self.fed_g@
    }

    /// The builder's buffers agree with the bytes consumed so far, and no
    /// complete or bad frame has gone unreported.
    pub closed spec fn wf(self) -> bool {
        match hdr_end(self.fed_g@) {
            None => self.header_line@ == self.fed_g@ && self.header is None && self.body@
                == Seq::<u8>::empty(),
            Some(e) => match self.header {
                Some(h) => {
                    &&& self.header_line@ == self.fed_g@.take(e + 1)
                    &&& spec_parse_header(self.fed_g@.take(e + 1)) == Some(h)
                    &&& self.body@ == self.fed_g@.skip(e + 1)
                    &&& self.body@.len() < h.message_length
                },
                None => false,
            },
        }
    }

    /// A fresh decoder that has consumed nothing.
    pub fn new() -> (r: MessageBuilder)
        ensures
            r.wf(),
            r.fed() == Seq::<u8>::empty(),
    {
        MessageBuilder {
            header_line: Vec::new(),
            header: None,
            body: Vec::new(),
            fed_g: Ghost(Seq::empty()),
        }
    }

    /// A well-formed builder still awaits bytes.
    pub proof fn lemma_wf_partial(self)
        requires
            self.wf(),
        ensures
            frame(self.fed()) is Partial,
    {
        lemma_hdr_end(self.fed_g@);
    }

    /// Feeds one chunk.  Exactly [`step_consumed`] bytes are consumed; the
    /// frame state of the consumed stream says what comes back: a complete
    /// message, a builder to continue with, or a header error.
    #[verifier::rlimit(100)]
    pub fn process(self, buf: &[u8]) -> (r: Result<Processed, ServerError>)
        requires
            self.wf(),
        ensures
            ({
                let f = self.fed();
                let n = step_consumed(f, buf@);
                let f2 = f + buf@.take(n);
                match r {
                    Ok(Processed::Incomplete(b2, used)) => used == n && b2.wf() && b2.fed() == f2
                        && frame(f2) is Partial,
                    Ok(Processed::Complete(m, used)) => used == n && m@.wf() && frame(f2)
                        == FrameState::Done(m@.header, m@.body, f2.len() as int),
                    Err(e) => frame(f2) is Bad && e == ServerError::BadHeader,
                }
            }),
    {
        let ghost f = self.fed_g@;
        let buf_len = buf.len();
        let MessageBuilder { mut header_line, header, mut body, fed_g } = self;
        match header {
            None => {
                // Accumulating the header line.
                match scan_nl(buf) {
                    None => {
                        push_all(&mut header_line, buf);
                        proof {
                            lemma_find_nl(buf@);
                            assert(buf@.take(buf@.len() as int) =~= buf@);
                            lemma_hdr_end(f);
                            assert(forall|k: int|
                                3 <= k < f.len() + buf@.len() ==> #[trigger] (f + buf@)[k] != 10);
                            lemma_hdr_end_none(f + buf@);
                        }
                        let used = buf_len;
                        Ok(
                            Processed::Incomplete(
                                MessageBuilder {
                                    header_line,
                                    header: None,
                                    body,
                                    fed_g: Ghost(f + buf@),
                                },
                                used,
                            ),
                        )
                    },
                    Some(j) => {
                        proof {
                            lemma_find_nl(buf@);
                            assert(find_nl(buf@) == Some(j as int));
                            assert(j < buf@.len());
                            lemma_hdr_end(f);
                        }
                        let line_part = slice_subrange(buf, 0, j + 1);
                        push_all(&mut header_line, line_part);
                        let ghost f2h = f + buf@.take(j + 1);
                        proof {
                            assert(header_line@ =~= f2h);
                        }
                        if header_line.len() <= 3 {
                            // The line is still too short to be a header.
                            proof {
                                lemma_hdr_end_none(f2h);
                                assert(step_consumed(f, buf@) == j + 1);
                            }
                            Ok(
                                Processed::Incomplete(
                                    MessageBuilder {
                                        header_line,
                                        header: None,
                                        body,
                                        fed_g: Ghost(f2h),
                                    },
                                    j + 1,
                                ),
                            )
                        } else {
                            proof {
                                assert(f2h.len() > 3);
                                assert(f2h[f2h.len() - 1] == 10);
                                assert(forall|k: int|
                                    3 <= k < f2h.len() - 1 ==> #[trigger] f2h[k] != 10);
                                lemma_hdr_end_at(f2h, f2h.len() - 1);
                                assert(f2h.take(f2h.len() as int) =~= f2h);
                            }
                            match parse_header_bytes(header_line.as_slice()) {
                                Err(_) => {
                                    proof {
                                        assert(step_consumed(f, buf@) == j + 1);
                                    }
                                    Err(ServerError::BadHeader)
                                },
                                Ok(h) => {
                                    if h.message_length == 0 {
                                        proof {
                                            assert(step_consumed(f, buf@) == j + 1);
                                            assert(f2h.subrange(
                                                f2h.len() as int,
                                                f2h.len() as int,
                                            ) =~= Seq::<u8>::empty());
                                            assert(body@ == Seq::<u8>::empty());
                                        }
                                        Ok(
                                            Processed::Complete(
                                                Message { header: h, body },
                                                j + 1,
                                            ),
                                        )
                                    } else {
                                        let avail = buf.len() - (j + 1);
                                        let t = if avail < h.message_length {
                                            avail
                                        } else {
                                            h.message_length
                                        };
                                        let body_part = slice_subrange(buf, j + 1, j + 1 + t);
                                        push_all(&mut body, body_part);
                                        let used = j + 1 + t;
                                        let ghost f2 = f + buf@.take(used as int);
                                        proof {
                                            assert(step_consumed(f, buf@) == used);
                                            assert(f2.take(f2h.len() as int) =~= f2h);
                                            assert(f2[f2h.len() - 1] == 10);
                                            assert(forall|k: int|
                                                3 <= k < f2h.len() - 1 ==> #[trigger] f2[k] != 10);
                                            lemma_hdr_end_at(f2, f2h.len() - 1);
                                            assert(body@ =~= f2.skip(f2h.len() as int));
                                        }
                                        if t == h.message_length {
                                            proof {
                                                assert(f2.subrange(
                                                    f2h.len() as int,
                                                    f2h.len() + h.message_length,
                                                ) =~= body@);
                                            }
                                            Ok(
                                                Processed::Complete(
                                                    Message { header: h, body },
                                                    used,
                                                ),
                                            )
                                        } else {
                                            Ok(
                                                Processed::Incomplete(
                                                    MessageBuilder {
                                                        header_line,
                                                        header: Some(h),
                                                        body,
                                                        fed_g: Ghost(f2),
                                                    },
                                                    used,
                                                ),
                                            )
                                        }
                                    }
                                },
                            }
                        }
                    },
                }
            },
            Some(h) => {
                // Accumulating the body.
                proof {
                    lemma_hdr_end(f);
                }
                let ghost e = hdr_end(f)->Some_0;
                let need = h.message_length - body.len();
                let t = if buf.len() < need {
                    buf.len()
                } else {
                    need
                };
                let body_part = slice_subrange(buf, 0, t);
                push_all(&mut body, body_part);
                let ghost f2 = f + buf@.take(t as int);
                proof {
                    assert(f2.take(f.len() as int) =~= f);
                    assert(f2[e] == 10);
                    assert(forall|k: int| 3 <= k < e ==> #[trigger] f2[k] != 10);
                    lemma_hdr_end_at(f2, e);
                    assert(f2.take(e + 1) =~= f.take(e + 1));
                    assert(body@ =~= f2.skip(e + 1));
                    assert(step_consumed(f, buf@) == t);
                }
                if t == need {
                    proof {
                        assert(f2.subrange(e + 1, e + 1 + h.message_length) =~= body@);
                    }
                    Ok(Processed::Complete(Message { header: h, body }, t))
                } else {
                    Ok(
                        Processed::Incomplete(
                            MessageBuilder { header_line, header: Some(h), body, fed_g: Ghost(f2) },
                            t,
                        ),
                    )
                }
            },
        }
    }
}

// ------------------------------------------------------------------
// Draining a chunk: zero or more messages, then a remainder
// ------------------------------------------------------------------
/// What a whole byte stream yields: the complete messages it holds in
/// order, and the trailing bytes of its unfinished last message; or a
/// failure if a bad header stops decoding.
pub enum DrainResult {
    Fail,
    Msgs(Seq<MessageV>, Seq<u8>),
}

pub open spec fn drain_spec(g: Seq<u8>) -> DrainResult
    decreases g.len(),
{
    match frame(g) {
        FrameState::Partial => DrainResult::Msgs(Seq::empty(), g),
        FrameState::Bad => DrainResult::Fail,
        FrameState::Done(h, body, total) => if 0 < total <= g.len() {
            match drain_spec(g.skip(total)) {
                DrainResult::Fail => DrainResult::Fail,
                DrainResult::Msgs(ms, rest) => DrainResult::Msgs(
                    seq![MessageV { header: h, body }] + ms,
                    rest,
                ),
            }
        } else {
            DrainResult::Fail
        },
    }
}

/// Messages already decoded, put in front of what a stream still yields.
pub open spec fn drain_prepend(ms: Seq<MessageV>, d: DrainResult) -> DrainResult {
    match d {
        DrainResult::Fail => DrainResult::Fail,
        DrainResult::Msgs(ms2, rest) => DrainResult::Msgs(ms + ms2, rest),
    }
}

/// Feeds one chunk to the builder and keeps feeding the remainder to fresh
/// builders while whole messages come out, exactly as [`drain_spec`] says
/// of the total byte stream.
#[verifier::rlimit(100)]
#[verifier::loop_isolation(false)]
pub fn drain_buffer(builder: MessageBuilder, buf: &[u8]) -> (r: Result<
    (Vec<Message>, MessageBuilder),
    ServerError,
>)
    requires
        builder.wf(),
    ensures
        ({
            let g0 = builder.fed() + buf@;
            match r {
                Ok((msgs, b2)) => b2.wf() && drain_spec(g0) == DrainResult::Msgs(
                    msgs.deep_view(),
                    b2.fed(),
                ),
                Err(e) => drain_spec(g0) is Fail && e == ServerError::BadHeader,
            }
        }),
{
    let ghost g0 = builder.fed() + buf@;
    let mut msgs: Vec<Message> = Vec::new();
    let mut off: usize = 0;
    let mut b = builder;
    proof {
        assert(buf@.skip(0) =~= buf@);
        assert(msgs.deep_view() =~= Seq::<MessageV>::empty());
        assert(drain_prepend(msgs.deep_view(), drain_spec(b.fed() + buf@.skip(off as int)))
            == drain_spec(g0));
    }
    loop
        invariant
            b.wf(),
            0 <= off <= buf@.len(),
            drain_prepend(msgs.deep_view(), drain_spec(b.fed() + buf@.skip(off as int)))
                == drain_spec(g0),
        decreases buf@.len() - off,
    {
        let rest = slice_subrange(buf, off, buf.len());
        let ghost g_cur = b.fed() + buf@.skip(off as int);
        let ghost f_pre = b.fed();
        proof {
            b.lemma_wf_partial();
            lemma_step_consumed_bounds(f_pre, rest@);
        }
        match b.process(rest) {
            Err(e) => {
                proof {
                    let n = step_consumed(f_pre, rest@);
                    let f2 = f_pre + rest@.take(n);
                    assert(g_cur.take(f2.len() as int) =~= f2);
                    lemma_frame_bad_prefix(f2, g_cur);
                    assert(drain_spec(g_cur) == DrainResult::Fail);
                    assert(drain_spec(g0) == DrainResult::Fail);
                }
                return Err(e);
            },
            Ok(Processed::Complete(m, used)) => {
                proof {
                    let n = step_consumed(f_pre, rest@);
                    let f2 = f_pre + rest@.take(n);
                    assert(g_cur.take(f2.len() as int) =~= f2);
                    lemma_frame_done_prefix(f2, g_cur);
                    assert(n >= 1) by {
                        if n == 0 {
                            assert(f2 =~= f_pre);
                        }
                    }
                    assert(g_cur.skip(f2.len() as int) =~= buf@.skip(off + used));
                }
                let ghost old_msgs = msgs.deep_view();
                msgs.push(m);
                b = MessageBuilder::new();
                proof {
                    assert(msgs.deep_view() =~~= old_msgs.push(m@));
                    let tail = b.fed() + buf@.skip(off + used);
                    assert(tail =~= buf@.skip(off + used));
                    assert(drain_spec(g_cur) == drain_prepend(seq![m@], drain_spec(tail)));
                    assert(old_msgs.push(m@) =~= old_msgs + seq![m@]);
                    match drain_spec(tail) {
                        DrainResult::Fail => {},
                        DrainResult::Msgs(ms2, r2) => {
                            assert(old_msgs + (seq![m@] + ms2) =~= (old_msgs + seq![m@]) + ms2);
                        },
                    }
                }
                off = off + used;
            },
            Ok(Processed::Incomplete(b2, used)) => {
                proof {
                    let n = step_consumed(f_pre, rest@);
                    assert(b2.fed() + buf@.skip(off + used) =~= g_cur);
                }
                b = b2;
                off = off + used;
                if off == buf.len() {
                    proof {
                        b.lemma_wf_partial();
                        assert(b.fed() + buf@.skip(off as int) =~= b.fed());
                        assert(drain_spec(b.fed()) == DrainResult::Msgs(
                            Seq::<MessageV>::empty(),
                            b.fed(),
                        ));
                        assert(drain_spec(g0) == DrainResult::Msgs(
                            msgs.deep_view() + Seq::<MessageV>::empty(),
                            b.fed(),
                        ));
                        assert(msgs.deep_view() + Seq::<MessageV>::empty() =~= msgs.deep_view());
                    }
                    return Ok((msgs, b));
                }
            },
        }
    }
}

// ------------------------------------------------------------------
// Round-trip laws
// ------------------------------------------------------------------
/// Encoding a message and decoding the resulting bytes yields exactly that
/// message, consuming exactly its encoded length.  The decoder's outcome
/// depends only on the bytes consumed, never on chunk boundaries, so this
/// holds over every chunking of the stream.
pub proof fn lemma_encode_decode(m: MessageV)
    requires
        m.wf(),
    ensures
        frame(encode_msg(m)) == FrameState::Done(m.header, m.body, encode_msg(m).len() as int),
        drain_spec(encode_msg(m)) == DrainResult::Msgs(seq![m], Seq::<u8>::empty()),
{
    let hl = header_line_bytes(m.header);
    let enc = encode_msg(m);
    lemma_parse_header_line(m.header);
    let e = hl.len() - 1;
    assert(enc[e] == hl[e]);
    assert(forall|k: int| 3 <= k < e ==> enc[k] == hl[k] && hl[k] != 10);
    lemma_hdr_end_at(enc, e);
    assert(enc.take(e + 1) =~= hl);
    assert(enc.len() == e + 1 + m.header.message_length);
    assert(enc.subrange(e + 1, e + 1 + m.header.message_length) =~= m.body);
    assert(frame(enc) == FrameState::Done(m.header, m.body, enc.len() as int));
    let tail = enc.skip(enc.len() as int);
    assert(tail =~= Seq::<u8>::empty());
    assert(frame(tail) is Partial);
    assert(drain_spec(tail) == DrainResult::Msgs(Seq::<MessageV>::empty(), tail));
    assert(MessageV { header: m.header, body: m.body } == m);
    assert(drain_spec(enc) == DrainResult::Msgs(
        seq![m] + Seq::<MessageV>::empty(),
        Seq::<u8>::empty(),
    ));
    assert(seq![m] + Seq::<MessageV>::empty() =~= seq![m]);
}

/// The bytes of two consecutive messages in one stream decode to the first
/// message with its exact encoded length consumed; a fresh decoder on the
/// remainder yields the second message.
pub proof fn lemma_decode_two(m1: MessageV, m2: MessageV)
    requires
        m1.wf(),
        m2.wf(),
    ensures
        frame(encode_msg(m1) + encode_msg(m2)) == FrameState::Done(
            m1.header,
            m1.body,
            encode_msg(m1).len() as int,
        ),
        frame(encode_msg(m2)) == FrameState::Done(
            m2.header,
            m2.body,
            encode_msg(m2).len() as int,
        ),
        drain_spec(encode_msg(m1) + encode_msg(m2)) == DrainResult::Msgs(
            seq![m1, m2],
            Seq::<u8>::empty(),
        ),
{
    let e1 = encode_msg(m1);
    let e2 = encode_msg(m2);
    let g = e1 + e2;
    lemma_encode_decode(m1);
    lemma_encode_decode(m2);
    assert(g.take(e1.len() as int) =~= e1);
    lemma_frame_done_prefix(e1, g);
    assert(g.skip(e1.len() as int) =~= e2);
    assert(seq![m1] + seq![m2] =~= seq![m1, m2]);
    assert(drain_spec(g) == drain_prepend(seq![m1], drain_spec(e2)));
    assert(seq![m1] + (seq![m2] + Seq::<MessageV>::empty()) =~= seq![m1, m2]);
}

/// Finds the first newline in a chunk.
fn scan_nl(buf: &[u8]) -> (r: Option<usize>)
    ensures
        match r {
            Some(j) => find_nl(buf@) == Some(j as int),
            None => find_nl(buf@) is None,
        },
{
    let mut i: usize = 0;
    while i < buf.len()
        invariant
            0 <= i <= buf@.len(),
            forall|k: int| 0 <= k < i ==> buf@[k] != 10,
        decreases buf@.len() - i,
    {
        if buf[i] == 10 {
            proof {
                lemma_find_nl_at(buf@, i as int);
            }
            return Some(i);
        }
        i = i + 1;
    }
    proof {
        lemma_find_nl_none(buf@);
    }
    None
}

} // verus!

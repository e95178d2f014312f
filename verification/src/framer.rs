//! Finding the frame delimiter and splitting one frame off a buffer.
//!
//! The wire protocol delimits frames with the two-byte sequence
//! carriage-return line-feed. A completed frame is handed out with the
//! delimiter stripped, and the bytes after the delimiter stay behind as the
//! remainder. A buffer without a delimiter yields no frame and is kept whole:
//! bytes are never discarded while a frame is still incomplete.

use vstd::prelude::*;
use vstd::slice::slice_subrange;
use vstd::slice::slice_to_vec;

verus! {

/// First byte of the frame delimiter: carriage return.
pub const CR: u8 = 13;

/// Second byte of the frame delimiter: line feed.
pub const LF: u8 = 10;

/// The delimiter occupies positions `i` and `i + 1` of `s`.
pub open spec fn delim_at(s: Seq<u8>, i: int) -> bool {
    &&& 0 <= i
    &&& i + 2 <= s.len()
    &&& s[i] == CR
    &&& s[i + 1] == LF
}

/// The delimiter occurs somewhere in `s`.
pub open spec fn has_delim(s: Seq<u8>) -> bool {
    exists|i: int| delim_at(s, i)
}

/// The delimiter occurs at position `i` of `s` and nowhere earlier.
pub open spec fn is_first_delim(s: Seq<u8>, i: int) -> bool {
    &&& delim_at(s, i)
    &&& forall|j: int| 0 <= j < i ==> !delim_at(s, j)
}

/// Position of the first delimiter occurrence in `s`, if there is one.
pub open spec fn spec_find_crlf(s: Seq<u8>) -> Option<int>
    decreases s.len(),
{
    if delim_at(s, 0) {
        Some(0int)
    } else if s.len() < 2 {
        None
    } else {
        match spec_find_crlf(s.skip(1)) {
            Some(p) => Some(p + 1),
            None => None,
        }
    }
}

/// What `spec_find_crlf` returns is the first delimiter position, and it
/// returns nothing only on a delimiter-free sequence.
pub proof fn lemma_find_crlf_first(s: Seq<u8>)
    ensures
        spec_find_crlf(s) matches Some(p) ==> is_first_delim(s, p),
        spec_find_crlf(s) is None ==> !has_delim(s),
    decreases s.len(),
{
    if delim_at(s, 0) {
    } else if s.len() < 2 {
        assert forall|i: int| !delim_at(s, i) by {}
    } else {
        let t = s.skip(1);
        lemma_find_crlf_first(t);
        assert forall|i: int| 0 <= i implies delim_at(t, i) == delim_at(s, i + 1) by {
            assert(t.len() == s.len() - 1);
            if i + 2 <= t.len() {
                assert(t[i] == s[i + 1]);
                assert(t[i + 1] == s[i + 2]);
            }
        }
        match spec_find_crlf(t) {
            Some(p) => {
                assert(delim_at(s, p + 1));
                assert forall|j: int| 0 <= j < p + 1 implies !delim_at(s, j) by {
                    if j > 0 {
                        assert(!delim_at(t, j - 1));
                    }
                }
            },
            None => {
                assert forall|i: int| !delim_at(s, i) by {
                    if i > 0 {
                        assert(!delim_at(t, i - 1));
                    }
                }
            },
        }
    }
}

/// The first delimiter position is unique.
pub proof fn lemma_first_delim_unique(s: Seq<u8>, i: int, j: int)
    requires
        is_first_delim(s, i),
        is_first_delim(s, j),
    ensures
        i == j,
{
}

/// One framing step on `s`: the first frame with its delimiter stripped and
/// the bytes after the delimiter; or, when `s` holds no delimiter, no frame
/// and `s` itself.
pub open spec fn spec_extract(s: Seq<u8>) -> (Option<Seq<u8>>, Seq<u8>) {
    match spec_find_crlf(s) {
        Some(p) => (Some(s.subrange(0, p)), s.skip(p + 2)),
        None => (None, s),
    }
}

/// All complete frames pending in `s`, in arrival order, each with its
/// delimiter stripped; trailing bytes past the last delimiter do not count.
pub open spec fn frames_of(s: Seq<u8>) -> Seq<Seq<u8>>
    decreases s.len(),
    via frames_of_decreases
{
    match spec_find_crlf(s) {
        Some(p) => seq![s.subrange(0, p)] + frames_of(s.skip(p + 2)),
        None => Seq::empty(),
    }
}

#[via_fn]
proof fn frames_of_decreases(s: Seq<u8>) {
    lemma_find_crlf_first(s);
}

/// A buffer without a delimiter yields no frame, and the remainder is the
/// whole buffer: no byte is discarded while a frame is incomplete.
pub proof fn lemma_no_delim_keeps_buffer(b: Seq<u8>)
    requires
        !has_delim(b),
    ensures
        spec_extract(b) == (None::<Seq<u8>>, b),
{
    lemma_find_crlf_first(b);
    match spec_find_crlf(b) {
        Some(p) => {
            assert(delim_at(b, p));
        },
        None => (),
    }
}

/// A delimiter-free prefix followed by the delimiter and arbitrary further
/// bytes splits exactly at that delimiter: the prefix is the frame and the
/// further bytes are the remainder.
pub proof fn lemma_extract_at_delim(a: Seq<u8>, b: Seq<u8>)
    requires
        !has_delim(a),
    ensures
        spec_extract(a + seq![CR, LF] + b) == (Some(a), b),
{
    let cat = a + seq![CR, LF] + b;
    let k = a.len() as int;
    assert(cat[k] == CR);
    assert(cat[k + 1] == LF);
    assert(delim_at(cat, k));
    assert forall|j: int| 0 <= j < k implies !delim_at(cat, j) by {
        if j + 2 <= k {
            assert(cat[j] == a[j]);
            assert(cat[j + 1] == a[j + 1]);
            assert(!delim_at(a, j));
        } else {
            assert(cat[j + 1] == CR);
        }
    }
    assert(is_first_delim(cat, k));
    lemma_find_crlf_first(cat);
    match spec_find_crlf(cat) {
        Some(p) => {
            lemma_first_delim_unique(cat, p, k);
            assert(cat.subrange(0, k) =~= a);
            assert(cat.skip(k + 2) =~= b);
        },
        None => {
            assert(has_delim(cat));
        },
    }
}

/// Extraction commutes with the arrival of more bytes while no frame is
/// complete: running a step on the kept remainder plus the new bytes gives
/// the same frame as one step on the whole concatenation.
pub proof fn lemma_extract_resumes(a: Seq<u8>, b: Seq<u8>)
    requires
        spec_extract(a).0 is None,
    ensures
        spec_extract(spec_extract(a).1 + b) == spec_extract(a + b),
{
}

/// A buffer that begins with the delimiter yields the zero-length frame, not
/// a skipped one, and the bytes after the delimiter as the remainder.
pub proof fn lemma_extract_leading_delim(b: Seq<u8>)
    ensures
        spec_extract(seq![CR, LF] + b) == (Some(Seq::<u8>::empty()), b),
{
    let a = Seq::<u8>::empty();
    assert(!has_delim(a));
    lemma_extract_at_delim(a, b);
    assert(a + seq![CR, LF] + b =~= seq![CR, LF] + b);
}

/// One extraction step peels off exactly the first pending frame; the frames
/// of the remainder follow it in unchanged order.
pub proof fn lemma_extract_in_order(s: Seq<u8>)
    ensures
        spec_extract(s).0 matches Some(f) ==> frames_of(s) == seq![f] + frames_of(
            spec_extract(s).1,
        ),
        spec_extract(s).0 is None ==> frames_of(s) == Seq::<Seq<u8>>::empty(),
{
}

/// Index of the first delimiter occurrence in `buffer`, if one occurs.
pub fn find_crlf(buffer: &[u8]) -> (r: Option<usize>)
    ensures
        match r {
            Some(p) => spec_find_crlf(buffer@) == Some(p as int),
            None => spec_find_crlf(buffer@) is None,
        },
{
    let n = buffer.len();
    if n < 2 {
        proof {
            lemma_find_crlf_first(buffer@);
        }
        return None;
    }
    let mut i: usize = 0;
    while i + 1 < n
        invariant
            n == buffer@.len(),
            2 <= n,
            i < n,
            forall|j: int| 0 <= j < i ==> !delim_at(buffer@, j),
        decreases n - i,
    {
        if buffer[i] == CR && buffer[i + 1] == LF {
            proof {
                lemma_find_crlf_first(buffer@);
                assert(is_first_delim(buffer@, i as int));
                match spec_find_crlf(buffer@) {
                    Some(p) => lemma_first_delim_unique(buffer@, p, i as int),
                    None => (),
                }
            }
            return Some(i);
        }
        i = i + 1;
    }
    proof {
        lemma_find_crlf_first(buffer@);
        assert forall|j: int| !delim_at(buffer@, j) by {}
    }
    None
}

/// Splits the first complete frame off the front of `buffer`. The frame comes
/// back with its delimiter stripped, beside the remaining bytes; a buffer
/// without a delimiter yields no frame, and every byte stays in the
/// remainder. The input is never mutated, so repeated calls on equal buffers
/// agree.
pub fn try_extract_frame(buffer: &[u8]) -> (r: (Option<Vec<u8>>, Vec<u8>))
    ensures
        match r.0 {
            Some(f) => spec_extract(buffer@) == (Some(f@), r.1@),
            None => spec_extract(buffer@) == (None::<Seq<u8>>, r.1@) && r.1@ == buffer@,
        },
{
    match find_crlf(buffer) {
        Some(p) => {
            let n = buffer.len();
            proof {
                lemma_find_crlf_first(buffer@);
                assert(p + 2 <= n);
            }
            let frame = slice_to_vec(slice_subrange(buffer, 0, p));
            let remainder = slice_to_vec(slice_subrange(buffer, p + 2, n));
            proof {
                assert(remainder@ =~= buffer@.skip(p + 2));
            }
            (Some(frame), remainder)
        },
        None => (None, slice_to_vec(buffer)),
    }
}

} // verus!

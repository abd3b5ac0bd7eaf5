//! Packing words into passages.
//!
//! A text is split on whitespace into words, and consecutive words are
//! packed, joined by single spaces, into passages of at most `CHUNK_LIMIT`
//! bytes; a word longer than that forms a passage of its own. The packing
//! looks only at the byte length of each word.
use vstd::prelude::*;

verus! {

/// The largest passage, in bytes, that holds more than one word.
pub const CHUNK_LIMIT: usize = 512;

/// The bytes that words `a..b` take when joined by single spaces.
#[verifier::opaque]
pub open spec fn span_len(lens: Seq<usize>, a: int, b: int) -> int
    decreases b - a,
{
    if b <= a {
        0
    } else if b == a + 1 {
        lens[a] as int
    } else {
        span_len(lens, a, b - 1) + 1 + lens[b - 1]
    }
}

/// The first word of each passage among the first `k` words.
pub open spec fn chunk_starts_upto(lens: Seq<usize>, k: nat) -> Seq<usize>
    decreases k,
{
    if k == 0 {
        Seq::empty()
    } else {
        let s = chunk_starts_upto(lens, (k - 1) as nat);
        if s.len() == 0 || span_len(lens, s.last() as int, k as int) > CHUNK_LIMIT {
            s.push((k - 1) as usize)
        } else {
            s
        }
    }
}

/// Where each passage starts when the words of byte lengths `lens` are
/// packed: a word joins the current passage while the passage, with it,
/// stays within `CHUNK_LIMIT` bytes, and starts a new one otherwise.
pub open spec fn chunk_starts_of(lens: Seq<usize>) -> Seq<usize> {
    chunk_starts_upto(lens, lens.len())
}

/// The end of passage `j`: the start of the next one, or the word count.
pub open spec fn chunk_end(starts: Seq<usize>, j: int, n: int) -> int {
    if j + 1 < starts.len() {
        starts[j + 1] as int
    } else {
        n
    }
}

proof fn lemma_starts_order(lens: Seq<usize>, k: nat)
    requires
        k <= lens.len(),
        lens.len() <= usize::MAX,
    ensures
        k > 0 ==> chunk_starts_upto(lens, k).len() > 0 && chunk_starts_upto(lens, k)[0] == 0,
        forall|j: int| 0 <= j < chunk_starts_upto(lens, k).len() ==> #[trigger] chunk_starts_upto(lens, k)[j] < k,
        forall|j: int| 0 < j < chunk_starts_upto(lens, k).len() ==> chunk_starts_upto(lens, k)[j - 1] < #[trigger] chunk_starts_upto(lens, k)[j],
    decreases k,
{
    if k > 0 {
        lemma_starts_order(lens, (k - 1) as nat);
        let s = chunk_starts_upto(lens, (k - 1) as nat);
        let t = chunk_starts_upto(lens, k);
        assert((k - 1) as usize as int == k - 1);
        if t != s {
            assert(t == s.push((k - 1) as usize));
            assert forall|j: int| 0 < j < t.len() implies t[j - 1] < #[trigger] t[j] by {
                assert(t[j - 1] == s[j - 1]);
                if j < s.len() {
                    assert(t[j] == s[j]);
                }
            }
            assert forall|j: int| 0 <= j < t.len() implies #[trigger] t[j] < k by {
                if j < s.len() {
                    assert(t[j] == s[j]);
                }
            }
        }
    }
}

proof fn lemma_starts_span(lens: Seq<usize>, k: nat)
    requires
        k <= lens.len(),
        lens.len() <= usize::MAX,
    ensures
        forall|j: int| 0 <= j < chunk_starts_upto(lens, k).len() ==> {
            let a = #[trigger] chunk_starts_upto(lens, k)[j] as int;
            let b = chunk_end(chunk_starts_upto(lens, k), j, k as int);
            b == a + 1 || span_len(lens, a, b) <= CHUNK_LIMIT
        },
    decreases k,
{
    if k > 0 {
        lemma_starts_span(lens, (k - 1) as nat);
        let s = chunk_starts_upto(lens, (k - 1) as nat);
        let t = chunk_starts_upto(lens, k);
        assert((k - 1) as usize as int == k - 1);
        let pushed = s.len() == 0 || span_len(lens, s.last() as int, k as int) > CHUNK_LIMIT;
        assert forall|j: int| 0 <= j < t.len() implies {
            let a = #[trigger] t[j] as int;
            let b = chunk_end(t, j, k as int);
            b == a + 1 || span_len(lens, a, b) <= CHUNK_LIMIT
        } by {
            if pushed {
                assert(t == s.push((k - 1) as usize));
                if j < s.len() {
                    assert(t[j] == s[j]);
                    if j + 1 < s.len() {
                        assert(t[j + 1] == s[j + 1]);
                    }
                    assert(chunk_end(t, j, k as int) == chunk_end(s, j, k - 1));
                }
            } else {
                assert(t == s);
                if j + 1 >= s.len() {
                    assert(s.last() == s[j]);
                }
            }
        }
    }
}

/// The first word of each passage for words of byte lengths `lens`. Every
/// passage but a lone long word fits in `CHUNK_LIMIT` bytes.
pub fn chunk_starts(lens: &Vec<usize>) -> (r: Vec<usize>)
    ensures
        r@ == chunk_starts_of(lens@),
        lens@.len() > 0 ==> r@.len() > 0 && r@[0] == 0,
        forall|j: int| 0 < j < r@.len() ==> r@[j - 1] < #[trigger] r@[j],
        forall|j: int| 0 <= j < r@.len() ==> {
            let a = #[trigger] r@[j] as int;
            let b = chunk_end(r@, j, lens@.len() as int);
            a < b && (b == a + 1 || span_len(lens@, a, b) <= CHUNK_LIMIT)
        },
{
    let mut r: Vec<usize> = Vec::new();
    let mut cur: usize = 0;
    let mut k: usize = 0;
    while k < lens.len()
        invariant
            k <= lens@.len(),
            r@ == chunk_starts_upto(lens@, k as nat),
            k > 0 ==> r@.len() > 0 && cur as int == span_len(lens@, r@.last() as int, k as int),
            forall|j: int| 0 <= j < r@.len() ==> #[trigger] r@[j] < k,
        decreases lens@.len() - k,
    {
        let w = lens[k];
        if k > 0 {
            proof {
                lemma_starts_order(lens@, k as nat);
            }
            assert(r@.last() < k);
            assert(span_len(lens@, r@.last() as int, k + 1) == span_len(lens@, r@.last() as int, k as int) + 1 + w) by {
                reveal(span_len);
            }
        }
        let fits = cur < CHUNK_LIMIT && w < CHUNK_LIMIT - cur;
        if r.len() == 0 || !fits {
            r.push(k);
            cur = w;
            assert(span_len(lens@, k as int, k + 1) == w) by {
                reveal(span_len);
            }
        } else {
            cur = cur + w + 1;
        }
        k = k + 1;
    }
    proof {
        lemma_starts_order(lens@, lens@.len());
        lemma_starts_span(lens@, lens@.len());
        assert forall|j: int| 0 <= j < r@.len() implies {
            let a = #[trigger] r@[j] as int;
            let b = chunk_end(r@, j, lens@.len() as int);
            a < b && (b == a + 1 || span_len(lens@, a, b) <= CHUNK_LIMIT)
        } by {
            if j + 1 < r@.len() {
                assert(r@[j] < r@[j + 1]);
            }
        }
    }
    r
}

} // verus!

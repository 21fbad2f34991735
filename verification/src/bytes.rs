//! Byte-level vocabulary shared by the EQG readers: little-endian words,
//! signatures, NUL-terminated strings in a string table, and counted records.
use vstd::prelude::*;

verus! {

/// The little-endian `u32` whose four bytes start at index `at` of `s`.
pub open spec fn le_u32(s: Seq<u8>, at: int) -> u32 {
    (s[at] as int + s[at + 1] as int * 0x100 + s[at + 2] as int * 0x1_0000 + s[at + 3] as int
        * 0x100_0000) as u32
}

/// The `n` consecutive little-endian words of `s` that start at index `at`.
pub open spec fn le_words(s: Seq<u8>, at: int, n: nat) -> Seq<u32> {
    Seq::new(n, |k: int| le_u32(s, at + 4 * k))
}

/// `s` begins with every byte of `sig`.
pub open spec fn has_prefix(s: Seq<u8>, sig: Seq<u8>) -> bool {
    &&& sig.len() <= s.len()
    &&& forall|i: int| 0 <= i < sig.len() ==> s[i] == sig[i]
}

/// A NUL byte stands in `table` at or after index `offset`.
pub open spec fn terminates(table: Seq<u8>, offset: int) -> bool {
    exists|j: int| 0 <= offset <= j < table.len() && table[j] == 0
}

/// `text` is the string that starts at `offset` in `table`: the bytes up to,
/// and not including, the first NUL at or after `offset`.
pub open spec fn string_at(table: Seq<u8>, offset: int, text: Seq<u8>) -> bool {
    &&& 0 <= offset
    &&& offset + text.len() < table.len()
    &&& table[offset + text.len()] == 0
    &&& text == table.subrange(offset, offset + text.len())
    &&& forall|k: int| 0 <= k < text.len() ==> text[k] != 0
}

/// `last` is the index of the final NUL byte of `table`, if it has one.
pub open spec fn is_last_nul(table: Seq<u8>, last: Option<usize>) -> bool {
    match last {
        Some(j) => j < table.len() && table[j as int] == 0 && forall|k: int|
            j < k < table.len() ==> table[k] != 0,
        None => forall|k: int| 0 <= k < table.len() ==> table[k] != 0,
    }
}

/// The all-ones sentinel stands for an absent reference.
pub open spec fn nullable(value: u32) -> Option<u32> {
    if value == u32::MAX {
        None
    } else {
        Some(value)
    }
}

/// Parse `n` records one after the other, starting at `start`, with the step
/// parser `step`; the first failing record ends the run with its error.
pub open spec fn repeat<T, E>(
    step: spec_fn(Seq<u8>, int) -> Result<(T, int), E>,
    s: Seq<u8>,
    start: int,
    n: nat,
) -> Result<(Seq<T>, int), E>
    decreases n,
{
    if n == 0 {
        Ok((Seq::empty(), start))
    } else {
        match repeat(step, s, start, (n - 1) as nat) {
            Err(e) => Err(e),
            Ok((items, pos)) => match step(s, pos) {
                Err(e) => Err(e),
                Ok((item, next)) => Ok((items.push(item), next)),
            },
        }
    }
}

/// Once a run of records has failed, longer runs fail with the same error.
pub proof fn lemma_repeat_error_persists<T, E>(
    step: spec_fn(Seq<u8>, int) -> Result<(T, int), E>,
    s: Seq<u8>,
    start: int,
    i: nat,
    n: nat,
)
    requires
        i <= n,
        repeat(step, s, start, i) is Err,
    ensures
        repeat(step, s, start, n) == repeat(step, s, start, i),
    decreases n - i,
{
    if i < n {
        lemma_repeat_error_persists(step, s, start, i, (n - 1) as nat);
    }
}

/// The exec result `r` of a step that began reading at some position agrees
/// with the spec outcome `expected`, where `end` is the position it stopped at.
pub open spec fn step_outcome<T: View, E>(
    r: Result<T, E>,
    expected: Result<(T::V, int), E>,
    end: int,
) -> bool {
    match r {
        Ok(v) => expected == Ok::<(T::V, int), E>((v@, end)),
        Err(e) => expected == Err::<(T::V, int), E>(e),
    }
}

/// Read the little-endian word at `at`.
pub fn read_u32_le(s: &[u8], at: usize) -> (w: u32)
    requires
        at + 4 <= s@.len(),
    ensures
        w == le_u32(s@, at as int),
{
    let b0 = s[at] as u32;
    let b1 = s[at + 1] as u32;
    let b2 = s[at + 2] as u32;
    let b3 = s[at + 3] as u32;
    b0 + b1 * 0x100 + b2 * 0x1_0000 + b3 * 0x100_0000
}

/// Exec form of [`nullable`].
pub fn nullable_word(value: u32) -> (r: Option<u32>)
    ensures
        r == nullable(value),
{
    if value != u32::MAX {
        Some(value)
    } else {
        None
    }
}

/// Whether `input` begins with `sig`.
pub fn starts_with(input: &[u8], sig: &[u8]) -> (r: bool)
    ensures
        r == has_prefix(input@, sig@),
{
    if sig.len() > input.len() {
        return false;
    }
    let mut i: usize = 0;
    while i < sig.len()
        invariant
            i <= sig@.len() <= input@.len(),
            forall|k: int| 0 <= k < i ==> input@[k] == sig@[k],
        decreases sig@.len() - i,
    {
        if input[i] != sig[i] {
            return false;
        }
        i = i + 1;
    }
    true
}

/// Find the index of the final NUL byte of `table`.
pub fn last_nul(table: &[u8]) -> (r: Option<usize>)
    ensures
        is_last_nul(table@, r),
{
    let mut i: usize = table.len();
    while i > 0
        invariant
            i <= table@.len(),
            forall|k: int| i <= k < table@.len() ==> table@[k] != 0,
        decreases i,
    {
        if table[i - 1] == 0 {
            return Some(i - 1);
        }
        i = i - 1;
    }
    None
}

/// Whether the string at `offset` terminates within `table`, decided in
/// constant time from the position of the table's final NUL.
pub fn check_terminates(table: &[u8], last: Option<usize>, offset: u32) -> (ok: bool)
    requires
        is_last_nul(table@, last),
    ensures
        ok == terminates(table@, offset as int),
{
    match last {
        Some(j) => {
            if (offset as usize) <= j {
                assert(table@[j as int] == 0);
                true
            } else {
                assert(!terminates(table@, offset as int)) by {
                    if terminates(table@, offset as int) {
                        let w = choose|w: int|
                            0 <= offset <= w < table@.len() && table@[w] == 0;
                        assert(table@[w] == 0);
                    }
                }
                false
            }
        },
        None => {
            assert(!terminates(table@, offset as int)) by {
                if terminates(table@, offset as int) {
                    let w = choose|w: int| 0 <= offset <= w < table@.len() && table@[w] == 0;
                    assert(table@[w] == 0);
                }
            }
            false
        },
    }
}

/// The NUL-terminated string at `offset` in `table`, without its terminator;
/// `None` when no NUL stands at or after `offset`.
pub fn string_in<'a>(table: &'a [u8], offset: u32) -> (r: Option<&'a [u8]>)
    ensures
        match r {
            Some(text) => string_at(table@, offset as int, text@),
            None => !terminates(table@, offset as int),
        },
{
    let start = offset as usize;
    if start > table.len() {
        return None;
    }
    let mut end: usize = start;
    while end < table.len()
        invariant
            start <= end <= table@.len(),
            start == offset,
            forall|k: int| start <= k < end ==> table@[k] != 0,
        decreases table@.len() - end,
    {
        if table[end] == 0 {
            let text = vstd::slice::slice_subrange(table, start, end);
            assert(text@ =~= table@.subrange(start as int, end as int));
            return Some(text);
        }
        end = end + 1;
    }
    assert(!terminates(table@, offset as int)) by {
        if terminates(table@, offset as int) {
            let w = choose|w: int| 0 <= offset <= w < table@.len() && table@[w] == 0;
            assert(table@[w] == 0);
        }
    }
    None
}

/// The byte total `total + count * stride`, unless it exceeds `usize`.
pub fn add_records(total: usize, count: u32, stride: usize) -> (r: Option<usize>)
    ensures
        r == (if total + count * stride <= usize::MAX {
            Some((total + count * stride) as usize)
        } else {
            None::<usize>
        }),
{
    match (count as usize).checked_mul(stride) {
        None => None,
        Some(bytes) => total.checked_add(bytes),
    }
}

/// The three words of `v` as an array.
pub fn array3(v: &Vec<u32>) -> (a: [u32; 3])
    requires
        v@.len() == 3,
    ensures
        a@ == v@,
{
    let a = [v[0], v[1], v[2]];
    assert(a@ =~= v@);
    a
}

/// The two words of `v` as an array.
pub fn array2(v: &Vec<u32>) -> (a: [u32; 2])
    requires
        v@.len() == 2,
    ensures
        a@ == v@,
{
    let a = [v[0], v[1]];
    assert(a@ =~= v@);
    a
}

// ---------------------------------------------------------------------------
// How a run of records depends on the bytes it reads.
// ---------------------------------------------------------------------------

/// `s` and `t` hold the same bytes wherever both have one: one of them is a
/// prefix of the other.
pub open spec fn compatible(s: Seq<u8>, t: Seq<u8>) -> bool {
    forall|i: int| #![trigger s[i], t[i]] 0 <= i < s.len() && i < t.len() ==> s[i] == t[i]
}

/// A step that succeeds on `s` at `pos` stops at or after `pos`, gives the same
/// outcome on every `t` that holds the bytes it read, and fails on a `t`
/// that ends before the step would.
pub open spec fn step_resumes<T, E>(
    step: spec_fn(Seq<u8>, int) -> Result<(T, int), E>,
    s: Seq<u8>,
    t: Seq<u8>,
    pos: int,
) -> bool {
    step(s, pos) matches Ok((v, e)) ==> {
        &&& pos <= e
        &&& e <= t.len() ==> step(t, pos) == step(s, pos)
        &&& t.len() < e ==> step(t, pos) is Err
    }
}

/// A successful step on `s` at `pos` advances by at least `k` bytes and
/// yields an item that satisfies `p`.
pub open spec fn step_yields<T, E>(
    step: spec_fn(Seq<u8>, int) -> Result<(T, int), E>,
    s: Seq<u8>,
    pos: int,
    k: int,
    p: spec_fn(T) -> bool,
) -> bool {
    step(s, pos) matches Ok((v, e)) ==> 0 <= k && pos + k <= e && e <= s.len() && p(v)
}

/// A run of steps that each resume resumes as a whole.
pub proof fn lemma_repeat_resumes<T, E>(
    step: spec_fn(Seq<u8>, int) -> Result<(T, int), E>,
    s: Seq<u8>,
    t: Seq<u8>,
    start: int,
    n: nat,
)
    requires
        0 <= start,
        forall|pos: int| 0 <= pos ==> #[trigger] step_resumes(step, s, t, pos),
    ensures
        repeat(step, s, start, n) matches Ok((items, e)) ==> {
            &&& start <= e
            &&& e <= t.len() ==> repeat(step, t, start, n) == repeat(step, s, start, n)
            &&& start <= t.len() < e ==> repeat(step, t, start, n) is Err
        },
    decreases n,
{
    if n > 0 {
        lemma_repeat_resumes(step, s, t, start, (n - 1) as nat);
        if let Ok((items, p)) = repeat(step, s, start, (n - 1) as nat) {
            assert(step_resumes(step, s, t, p));
        }
    }
}

/// A run of `n` steps that each advance by at least `k` bytes and yield items
/// satisfying `p` advances by at least `n * k` bytes and yields `n` such items.
pub proof fn lemma_repeat_yields<T, E>(
    step: spec_fn(Seq<u8>, int) -> Result<(T, int), E>,
    s: Seq<u8>,
    start: int,
    n: nat,
    k: nat,
    p: spec_fn(T) -> bool,
)
    requires
        0 <= start <= s.len(),
        forall|pos: int| 0 <= pos ==> #[trigger] step_yields(step, s, pos, k as int, p),
    ensures
        repeat(step, s, start, n) matches Ok((items, e)) ==> {
            &&& start + n * k <= e <= s.len()
            &&& items.len() == n
            &&& forall|i: int| 0 <= i < n ==> #[trigger] p(items[i])
        },
    decreases n,
{
    if n == 0 {
        assert(n * k == 0) by (nonlinear_arith)
            requires
                n == 0,
        ;
    } else {
        lemma_repeat_yields(step, s, start, (n - 1) as nat, k, p);
        if let Ok((items, q)) = repeat(step, s, start, (n - 1) as nat) {
            assert(step_yields(step, s, q, k as int, p));
            assert((n - 1) * k + k == n * k) by (nonlinear_arith)
                requires
                    n > 0,
            ;
            if let Ok((item, e)) = step(s, q) {
                let all = items.push(item);
                assert forall|i: int| 0 <= i < n implies #[trigger] p(all[i]) by {
                    if i < n - 1 {
                        assert(all[i] == items[i]);
                    }
                }
            }
        }
    }
}

/// Equal bytes at `pos .. pos + 4 * n` give equal words.
pub proof fn lemma_le_words_compatible(s: Seq<u8>, t: Seq<u8>, pos: int, n: nat)
    requires
        compatible(s, t),
        0 <= pos,
        pos + 4 * n <= s.len(),
        pos + 4 * n <= t.len(),
    ensures
        le_words(s, pos, n) == le_words(t, pos, n),
{
    assert forall|k: int| 0 <= k < n implies #[trigger] le_u32(s, pos + 4 * k) == le_u32(t, pos + 4 * k) by {
        assert(s[pos + 4 * k] == t[pos + 4 * k]);
        assert(s[pos + 4 * k + 1] == t[pos + 4 * k + 1]);
        assert(s[pos + 4 * k + 2] == t[pos + 4 * k + 2]);
        assert(s[pos + 4 * k + 3] == t[pos + 4 * k + 3]);
    }
    assert(le_words(s, pos, n) =~= le_words(t, pos, n));
}

/// The sum of `size` over `items`.
pub open spec fn total<T>(items: Seq<T>, size: spec_fn(T) -> int) -> int
    decreases items.len(),
{
    if items.len() == 0 {
        0
    } else {
        total(items.drop_last(), size) + size(items.last())
    }
}

/// The size function that gives every item `k` bytes.
pub open spec fn const_size<T>(k: int) -> spec_fn(T) -> int {
    |x: T| k
}

/// A successful step on `s` at `pos` ends exactly `size` of its item bytes
/// after `pos`, a size that is never negative.
pub open spec fn step_consumes<T, E>(
    step: spec_fn(Seq<u8>, int) -> Result<(T, int), E>,
    s: Seq<u8>,
    pos: int,
    size: spec_fn(T) -> int,
) -> bool {
    step(s, pos) matches Ok((v, e)) ==> size(v) >= 0 && e == pos + size(v)
}

/// A run of steps that each consume the size of their item ends after the
/// total size of its items.
pub proof fn lemma_repeat_consumes<T, E>(
    step: spec_fn(Seq<u8>, int) -> Result<(T, int), E>,
    s: Seq<u8>,
    start: int,
    n: nat,
    size: spec_fn(T) -> int,
)
    requires
        0 <= start,
        forall|pos: int| 0 <= pos ==> #[trigger] step_consumes(step, s, pos, size),
    ensures
        repeat(step, s, start, n) matches Ok((items, e)) ==> start <= e && e == start + total(
            items,
            size,
        ),
    decreases n,
{
    if n > 0 {
        lemma_repeat_consumes(step, s, start, (n - 1) as nat, size);
        if let Ok((items, p)) = repeat(step, s, start, (n - 1) as nat) {
            assert(step_consumes(step, s, p, size));
            if let Ok((item, e)) = step(s, p) {
                assert(items.push(item).drop_last() =~= items);
            }
        }
    }
}

/// Items of `k` bytes each total `k` times their number.
pub proof fn lemma_total_const<T>(items: Seq<T>, k: int)
    ensures
        total(items, const_size::<T>(k)) == k * items.len(),
    decreases items.len(),
{
    if items.len() > 0 {
        lemma_total_const(items.drop_last(), k);
        assert(k * (items.len() - 1) + k == k * items.len()) by (nonlinear_arith);
    }
}

/// A run of `n` steps that succeeds yields `n` items.
pub proof fn lemma_repeat_len<T, E>(
    step: spec_fn(Seq<u8>, int) -> Result<(T, int), E>,
    s: Seq<u8>,
    start: int,
    n: nat,
)
    ensures
        repeat(step, s, start, n) matches Ok((items, e)) ==> items.len() == n,
    decreases n,
{
    if n > 0 {
        lemma_repeat_len(step, s, start, (n - 1) as nat);
    }
}

/// The first `k` steps of a run that succeeds succeed with its first `k` items.
pub proof fn lemma_repeat_prefix<T, E>(
    step: spec_fn(Seq<u8>, int) -> Result<(T, int), E>,
    s: Seq<u8>,
    start: int,
    n: nat,
    k: nat,
)
    requires
        k <= n,
    ensures
        repeat(step, s, start, n) matches Ok((items, e)) ==> (repeat(step, s, start, k) matches Ok(
            (prefix, p),
        ) && prefix == items.take(k as int)),
    decreases n,
{
    lemma_repeat_len(step, s, start, n);
    if let Ok((items, e)) = repeat(step, s, start, n) {
        if k == n {
            assert(items.take(k as int) =~= items);
        } else {
            lemma_repeat_prefix(step, s, start, (n - 1) as nat, k);
            lemma_repeat_len(step, s, start, (n - 1) as nat);
            if let Ok((before, p)) = repeat(step, s, start, (n - 1) as nat) {
                assert(items.take(k as int) =~= before.take(k as int));
            }
        }
    }
}

/// In a run that succeeds, item `k` is what the step yields at the start of
/// the run plus the sizes of the items before it, and it ends its own size
/// later.
pub proof fn lemma_repeat_item_at<T, E>(
    step: spec_fn(Seq<u8>, int) -> Result<(T, int), E>,
    s: Seq<u8>,
    start: int,
    n: nat,
    size: spec_fn(T) -> int,
    k: int,
)
    requires
        0 <= start,
        0 <= k < n,
        forall|pos: int| 0 <= pos ==> #[trigger] step_consumes(step, s, pos, size),
    ensures
        repeat(step, s, start, n) matches Ok((items, e)) ==> step(
            s,
            start + total(items.take(k), size),
        ) == Ok::<(T, int), E>(
            (items[k], start + total(items.take(k), size) + size(items[k])),
        ),
{
    lemma_repeat_len(step, s, start, n);
    if let Ok((items, e)) = repeat(step, s, start, n) {
        lemma_repeat_prefix(step, s, start, n, (k + 1) as nat);
        lemma_repeat_prefix(step, s, start, n, k as nat);
        lemma_repeat_consumes(step, s, start, k as nat, size);
        let before = items.take(k);
        if let Ok((longer, p1)) = repeat(step, s, start, (k + 1) as nat) {
            if let Ok((shorter, p)) = repeat(step, s, start, k as nat) {
                assert(shorter == before);
                assert(p == start + total(before, size));
                assert(step_consumes(step, s, p, size));
                if let Ok((item, q)) = step(s, p) {
                    assert(longer == before.push(item));
                    assert(items.take(k + 1)[k] == items[k]);
                }
            }
        }
    }
}

// ---------------------------------------------------------------------------
// How a run of records depends on the bytes inside it.
// ---------------------------------------------------------------------------

/// `s` and `t` hold the same byte at every index from `lo` up to, and not
/// including, `hi`.
pub open spec fn same_between(s: Seq<u8>, t: Seq<u8>, lo: int, hi: int) -> bool {
    forall|b: int| #![trigger s[b], t[b]] lo <= b < hi ==> s[b] == t[b]
}

/// `t` is `s` with the four bytes at `at` (one word) replaced by any others.
pub open spec fn word_replaced(s: Seq<u8>, t: Seq<u8>, at: int) -> bool {
    &&& t.len() == s.len()
    &&& same_between(s, t, 0, at)
    &&& same_between(s, t, at + 4, s.len() as int)
}

/// `t` is `s` with the bytes from `lo` up to, and not including, `hi`
/// replaced by any others.
pub open spec fn range_replaced(s: Seq<u8>, t: Seq<u8>, lo: int, hi: int) -> bool {
    &&& t.len() == s.len()
    &&& same_between(s, t, 0, lo)
    &&& same_between(s, t, hi, s.len() as int)
}

/// A step that succeeds on `s` at `pos` stops at or after `pos` and within
/// `s`, and gives the same outcome on every `t` of the same length that holds
/// the same bytes from `pos` up to where it stopped.
pub open spec fn step_local<T, E>(
    step: spec_fn(Seq<u8>, int) -> Result<(T, int), E>,
    s: Seq<u8>,
    t: Seq<u8>,
    pos: int,
) -> bool {
    step(s, pos) matches Ok((v, e)) ==> {
        &&& pos <= e <= s.len()
        &&& (t.len() == s.len() && same_between(s, t, pos, e)) ==> step(t, pos) == step(s, pos)
    }
}

/// Equal bytes from `pos` to `pos + 4 * n` give equal words.
pub proof fn lemma_le_words_between(s: Seq<u8>, t: Seq<u8>, pos: int, n: nat)
    requires
        same_between(s, t, pos, pos + 4 * n),
    ensures
        le_words(s, pos, n) == le_words(t, pos, n),
{
    assert forall|k: int| 0 <= k < n implies #[trigger] le_u32(s, pos + 4 * k) == le_u32(t, pos + 4 * k) by {
        assert(s[pos + 4 * k] == t[pos + 4 * k]);
        assert(s[pos + 4 * k + 1] == t[pos + 4 * k + 1]);
        assert(s[pos + 4 * k + 2] == t[pos + 4 * k + 2]);
        assert(s[pos + 4 * k + 3] == t[pos + 4 * k + 3]);
    }
    assert(le_words(s, pos, n) =~= le_words(t, pos, n));
}

/// A run of local steps that succeeds on `s` stays within `s`, and gives the
/// same outcome on every `t` of the same length that holds the same bytes
/// over the run.
pub proof fn lemma_repeat_local<T, E>(
    step: spec_fn(Seq<u8>, int) -> Result<(T, int), E>,
    s: Seq<u8>,
    t: Seq<u8>,
    start: int,
    n: nat,
)
    requires
        0 <= start <= s.len(),
        forall|pos: int| 0 <= pos ==> #[trigger] step_local(step, s, t, pos),
    ensures
        repeat(step, s, start, n) matches Ok((items, e)) ==> {
            &&& start <= e <= s.len()
            &&& (t.len() == s.len() && same_between(s, t, start, e)) ==> repeat(step, t, start, n)
                == repeat(step, s, start, n)
        },
    decreases n,
{
    if n > 0 {
        lemma_repeat_local(step, s, t, start, (n - 1) as nat);
        if let Ok((items, p)) = repeat(step, s, start, (n - 1) as nat) {
            assert(step_local(step, s, t, p));
        }
    }
}

/// Where item `k` of a run of local steps comes out as `item` on `t`, at the
/// same place and with the same end `e` as on `s`, and `t` holds the bytes of
/// `s` before that item and after it, the run on `t` differs from that on `s`
/// in that item alone, for every run of more than `k` steps.
pub proof fn lemma_repeat_replace_one<T, E>(
    step: spec_fn(Seq<u8>, int) -> Result<(T, int), E>,
    s: Seq<u8>,
    t: Seq<u8>,
    start: int,
    k: nat,
    p: int,
    e: int,
    item: T,
    m: nat,
)
    requires
        0 <= start <= s.len(),
        t.len() == s.len(),
        k < m,
        forall|pos: int| 0 <= pos ==> #[trigger] step_local(step, s, t, pos),
        repeat(step, s, start, k) is Ok,
        repeat(step, s, start, k)->Ok_0.1 == p,
        same_between(s, t, start, p),
        step(s, p) is Ok,
        step(s, p)->Ok_0.1 == e,
        step(t, p) == Ok::<(T, int), E>((item, e)),
        same_between(s, t, e, s.len() as int),
    ensures
        repeat(step, s, start, m) matches Ok((items, f)) ==> {
            &&& e <= f
            &&& repeat(step, t, start, m) == Ok::<(Seq<T>, int), E>((items.update(k as int, item), f))
        },
    decreases m,
{
    lemma_repeat_len(step, s, start, k);
    lemma_repeat_local(step, s, t, start, k);
    assert(step_local(step, s, t, p));
    if m == k + 1 {
        let pre = repeat(step, s, start, k)->Ok_0.0;
        let v = step(s, p)->Ok_0.0;
        assert(pre.push(v).update(k as int, item) =~= pre.push(item));
    } else {
        lemma_repeat_replace_one(step, s, t, start, k, p, e, item, (m - 1) as nat);
        lemma_repeat_len(step, s, start, (m - 1) as nat);
        if let Ok((items, f)) = repeat(step, s, start, (m - 1) as nat) {
            assert(step_local(step, s, t, f));
            if let Ok((v, g)) = step(s, f) {
                assert(same_between(s, t, f, g));
                assert(items.update(k as int, item).push(v) =~= items.push(v).update(k as int, item));
            }
        }
    }
}

/// A step that fails on `s` at `pos` fails with an error that satisfies `p`.
pub open spec fn step_fails_with<T, E>(
    step: spec_fn(Seq<u8>, int) -> Result<(T, int), E>,
    s: Seq<u8>,
    pos: int,
    p: spec_fn(E) -> bool,
) -> bool {
    step(s, pos) matches Err(e) ==> p(e)
}

/// A run of local steps that each fail, at a place within `s`, only with
/// errors that satisfy `p` fails only with such an error.
pub proof fn lemma_repeat_fails_with<T, E>(
    step: spec_fn(Seq<u8>, int) -> Result<(T, int), E>,
    s: Seq<u8>,
    start: int,
    n: nat,
    p: spec_fn(E) -> bool,
)
    requires
        0 <= start <= s.len(),
        forall|pos: int| 0 <= pos <= s.len() ==> #[trigger] step_fails_with(step, s, pos, p),
        forall|pos: int| 0 <= pos ==> #[trigger] step_local(step, s, s, pos),
    ensures
        repeat(step, s, start, n) matches Err(e) ==> p(e),
    decreases n,
{
    if n > 0 {
        lemma_repeat_fails_with(step, s, start, (n - 1) as nat, p);
        lemma_repeat_local(step, s, s, start, (n - 1) as nat);
        if let Ok((items, q)) = repeat(step, s, start, (n - 1) as nat) {
            assert(step_fails_with(step, s, q, p));
        }
    }
}

} // verus!

//! The text encoder: generate source code in the tape language that
//! prints a given ASCII text.

use vstd::prelude::*;

verus! {

use crate::error::Error;

/// What converting text to bytes yields from position `i` on, with the
/// 1-based `line` and `col` counters at that position: each ASCII
/// character becomes its byte, carriage returns are dropped, a line
/// break advances the line counter, and the first non-ASCII character
/// is reported with its location.
pub open spec fn bytes_from(text: Seq<char>, i: int, line: int, col: int) -> Result<Seq<u8>, Error>
    decreases text.len() - i,
{
    if i < 0 || i >= text.len() {
        Ok(Seq::empty())
    } else {
        let c = text[i];
        if c as u32 >= 128 {
            Err(Error::NonASCIIChar(c, line as usize, col as usize))
        } else if c == '\r' {
            bytes_from(text, i + 1, line, col)
        } else {
            let rest = if c == '\n' {
                bytes_from(text, i + 1, line + 1, 1)
            } else {
                bytes_from(text, i + 1, line, col + 1)
            };
            match rest {
                Ok(b) => Ok(seq![(c as u32) as u8] + b),
                Err(e) => Err(e),
            }
        }
    }
}

/// What converting a whole text to bytes yields.
pub open spec fn bytes_spec(text: Seq<char>) -> Result<Seq<u8>, Error> {
    bytes_from(text, 0, 1, 1)
}

/// Converting succeeds exactly on all-ASCII text.
proof fn lemma_bytes_from_ok(text: Seq<char>, i: int, line: int, col: int)
    requires
        0 <= i <= text.len(),
    ensures
        bytes_from(text, i, line, col) is Ok <==> forall|j: int|
            i <= j < text.len() ==> (#[trigger] text[j] as u32) < 128,
    decreases text.len() - i,
{
    if i < text.len() {
        let c = text[i];
        if c as u32 >= 128 {
        } else if c == '\r' {
            lemma_bytes_from_ok(text, i + 1, line, col);
        } else if c == '\n' {
            lemma_bytes_from_ok(text, i + 1, line + 1, 1);
        } else {
            lemma_bytes_from_ok(text, i + 1, line, col + 1);
        }
    }
}

/// Convert a text to the bytes of its characters. Each character must
/// be ASCII and becomes a single byte; carriage returns are dropped.
/// The first non-ASCII character is reported with its 1-based line and
/// column.
pub fn text_2_bytes(text: &str) -> (r: Result<Vec<u8>, Error>)
    requires
        text@.len() < usize::MAX,
    ensures
        match r {
            Ok(bytes) => Ok::<Seq<u8>, Error>(bytes@) == bytes_spec(text@),
            Err(e) => Err::<Seq<u8>, Error>(e) == bytes_spec(text@),
        },
        r is Ok <==> forall|j: int| 0 <= j < text@.len() ==> (#[trigger] text@[j] as u32) < 128,
{
    proof {
        lemma_bytes_from_ok(text@, 0, 1, 1);
    }
    let n = text.unicode_len();
    let mut bytes: Vec<u8> = Vec::new();
    let mut i: usize = 0;
    let mut line: usize = 1;
    let mut col: usize = 1;
    while i < n
        invariant
            i <= n,
            n == text@.len(),
            n < usize::MAX,
            1 <= line <= i + 1,
            1 <= col <= i + 1,
            bytes_spec(text@) == match bytes_from(text@, i as int, line as int, col as int) {
                Ok(b) => Ok::<Seq<u8>, Error>(bytes@ + b),
                Err(e) => Err::<Seq<u8>, Error>(e),
            },
            bytes_spec(text@) is Ok <==> forall|j: int|
                0 <= j < text@.len() ==> (#[trigger] text@[j] as u32) < 128,
        decreases n - i,
    {
        let c = text.get_char(i);
        let code: u32 = c as u32;
        if code >= 128 {
            return Err(Error::NonASCIIChar(c, line, col));
        }
        if c != '\r' {
            let ghost pre = bytes@;
            bytes.push(code as u8);
            proof {
                if bytes_from(text@, i as int + 1, line as int + 1, 1) is Ok {
                    assert(pre + (seq![(c as u32) as u8] + bytes_from(
                        text@,
                        i as int + 1,
                        line as int + 1,
                        1,
                    ).unwrap()) =~= bytes@ + bytes_from(
                        text@,
                        i as int + 1,
                        line as int + 1,
                        1,
                    ).unwrap());
                }
                if bytes_from(text@, i as int + 1, line as int, col as int + 1) is Ok {
                    assert(pre + (seq![(c as u32) as u8] + bytes_from(
                        text@,
                        i as int + 1,
                        line as int,
                        col as int + 1,
                    ).unwrap()) =~= bytes@ + bytes_from(
                        text@,
                        i as int + 1,
                        line as int,
                        col as int + 1,
                    ).unwrap());
                }
            }
            if c == '\n' {
                line = line + 1;
                col = 1;
            } else {
                col = col + 1;
            }
        }
        i = i + 1;
    }
    Ok(bytes)
}

/// A factor-table entry correctly represents the number `n`: both
/// factors are at least two, in ascending order, and the factors
/// multiplied plus the difference give `n` back.
pub open spec fn entry_represents(f: (u8, u8, i8), n: int) -> bool {
    2 <= f.0 <= f.1 && f.0 as int * f.1 as int + f.2 as int == n
}

/// Every kept work-table triple `(n, f1, f2)` is an exact
/// factorization of its number, with the number above ten.
spec fn work_entries_ok(s: Seq<(u8, u8, u8)>) -> bool {
    forall|k: int|
        0 <= k < s.len() ==> {
            let e = #[trigger] s[k];
            2 <= e.1 <= e.2 && e.1 as int * e.2 as int == e.0 as int && e.0 > 10
        }
}

/// The working table before any factors are found: one sentinel slot
/// per number.
pub open spec fn ft_init(i: nat) -> Seq<(u8, u8, u8)>
    decreases i,
{
    if i == 0 {
        Seq::empty()
    } else {
        ft_init((i - 1) as nat).push((((i - 1) as nat) as u8, 255u8, 255u8))
    }
}

/// One probe of the fill scan: where the factor pair has a smaller sum
/// than the slot's current pair, the slot takes the pair.
pub open spec fn ft_fill_step(w: Seq<(u8, u8, u8)>, f1: nat, f2: nat) -> Seq<(u8, u8, u8)> {
    let mul = f1 * f2;
    let cur = w[mul as int];
    let s = cur.1 + cur.2;
    let cur_sum: int = if s > 255 {
        255
    } else {
        s as int
    };
    if f1 + f2 < cur_sum {
        w.update(mul as int, (cur.0, f1 as u8, f2 as u8))
    } else {
        w
    }
}

/// The fill scan over the second factor, stopping at the end of the
/// byte range or when the product leaves it.
pub open spec fn ft_fill_inner(w: Seq<(u8, u8, u8)>, f1: nat, f2: nat) -> Seq<(u8, u8, u8)>
    decreases 255 - f2,
{
    if f2 >= 255 {
        w
    } else if f1 * f2 > 255 {
        w
    } else {
        ft_fill_inner(ft_fill_step(w, f1, f2), f1, f2 + 1)
    }
}

/// The fill scan over the first factor.
pub open spec fn ft_fill_outer(w: Seq<(u8, u8, u8)>, f1: nat) -> Seq<(u8, u8, u8)>
    decreases 255 - f1,
{
    if f1 >= 255 {
        w
    } else {
        ft_fill_outer(ft_fill_inner(w, f1, f1), f1 + 1)
    }
}

/// A slot survives the retain step: it received factors and its number
/// is not shorter written as repeated increments.
pub open spec fn ft_keep(e: (u8, u8, u8)) -> bool {
    !(e.1 == 255 && e.2 == 255) && e.0 > 10
}

/// The surviving slots, in order.
pub open spec fn ft_retain(w: Seq<(u8, u8, u8)>, i: nat) -> Seq<(u8, u8, u8)>
    decreases w.len() - i,
{
    if i >= w.len() {
        Seq::empty()
    } else if ft_keep(w[i as int]) {
        seq![w[i as int]] + ft_retain(w, i + 1)
    } else {
        ft_retain(w, i + 1)
    }
}

/// An entry costs no less than its predecessor's factors plus the
/// corrections bridging the two numbers.
pub open spec fn ft_prune1_cond(a: (u8, u8, u8), b: (u8, u8, u8)) -> bool {
    a.1 + a.2 >= b.1 + b.2 + (a.0 - b.0)
}

/// The forward prune: drop each entry not cheaper than reaching its
/// number from its predecessor's factors.
pub open spec fn ft_prune1(s: Seq<(u8, u8, u8)>, idx: nat) -> Seq<(u8, u8, u8)>
    decreases s.len() - idx,
{
    if idx >= s.len() {
        s
    } else if ft_prune1_cond(s[idx as int], s[idx as int - 1]) {
        ft_prune1(s.remove(idx as int), idx)
    } else {
        ft_prune1(s, idx + 1)
    }
}

/// An entry costs no less than its successor's factors plus the
/// corrections bridging the two numbers.
pub open spec fn ft_prune2_cond(a: (u8, u8, u8), b: (u8, u8, u8)) -> bool {
    a.1 + a.2 >= b.1 + b.2 + (b.0 - a.0)
}

/// The backward prune: drop each entry not cheaper than reaching its
/// number from its successor's factors.
pub open spec fn ft_prune2(s: Seq<(u8, u8, u8)>, ii: nat) -> Seq<(u8, u8, u8)>
    decreases ii,
{
    if ii == 0 {
        s
    } else {
        let i = (ii - 1) as nat;
        if i + 1 < s.len() && ft_prune2_cond(s[i as int], s[i as int + 1]) {
            ft_prune2(s.remove(i as int), i)
        } else {
            ft_prune2(s, i)
        }
    }
}

/// Both prunes over the retained slots.
pub open spec fn ft_pruned(s: Seq<(u8, u8, u8)>) -> Seq<(u8, u8, u8)> {
    let p1 = ft_prune1(s, 1);
    if p1.len() == 0 {
        p1
    } else {
        ft_prune2(p1, (p1.len() - 1) as nat)
    }
}

/// The kept numbers written into their slots of the factor map.
pub open spec fn ft_map_from(
    kept: Seq<(u8, u8, u8)>,
    i: nat,
    m: Seq<Option<(u8, u8)>>,
) -> Seq<Option<(u8, u8)>>
    decreases kept.len() - i,
{
    if i >= kept.len() {
        m
    } else {
        ft_map_from(
            kept,
            i + 1,
            m.update(kept[i as int].0 as int, Some((kept[i as int].1, kept[i as int].2))),
        )
    }
}

/// The search for the nearest factored numbers below and above `n`,
/// bounded so that it provably stops.
pub open spec fn ft_search(m: Seq<Option<(u8, u8)>>, low: nat, high: nat, tries: nat) -> (
    nat,
    nat,
)
    decreases 256 - tries,
{
    if tries >= 256 || m[low as int] is Some || m[high as int] is Some {
        (low, high)
    } else {
        ft_search(
            m,
            if low > 0 {
                (low - 1) as nat
            } else {
                low
            },
            if high < 255 {
                high + 1
            } else {
                high
            },
            tries + 1,
        )
    }
}

/// The factor pair chosen for `n`: of the nearest factored numbers,
/// the one with the smaller factor sum.
pub open spec fn ft_pick(m: Seq<Option<(u8, u8)>>, n: nat) -> Option<(u8, u8)> {
    let lh = ft_search(m, n, n, 0);
    match (m[lh.0 as int], m[lh.1 as int]) {
        (Some(a), Some(b)) => if a.0 + a.1 < b.0 + b.1 {
            Some(a)
        } else {
            Some(b)
        },
        (Some(a), None) => Some(a),
        (None, Some(b)) => Some(b),
        (None, None) => None,
    }
}

/// The table entry for `n`: the chosen factors with the correction,
/// falling back to plain halving where no factors were found or the
/// correction does not fit one signed byte.
pub open spec fn ft_entry(m: Seq<Option<(u8, u8)>>, n: nat) -> (u8, u8, i8) {
    let fallback = (2u8, (n / 2) as u8, (n % 2) as i8);
    match ft_pick(m, n) {
        Some(f) => {
            let prod = f.0 * f.1;
            if n >= prod {
                if n - prod <= 127 {
                    (f.0, f.1, (n - prod) as i8)
                } else {
                    fallback
                }
            } else {
                if prod - n <= 128 {
                    (f.0, f.1, (0 - (prod - n)) as i8)
                } else {
                    fallback
                }
            }
        },
        None => fallback,
    }
}

/// The table slots from `n` on filled with their entries.
pub open spec fn ft_build(
    m: Seq<Option<(u8, u8)>>,
    n: nat,
    t: Seq<Option<(u8, u8, i8)>>,
) -> Seq<Option<(u8, u8, i8)>>
    decreases 256 - n,
{
    if n >= 256 {
        t
    } else {
        ft_build(m, n + 1, t.update(n as int, Some(ft_entry(m, n))))
    }
}

/// The exact table the generator produces: the whole computation,
/// stage by stage, as a value. Two calls of the generator return this
/// same table.
pub open spec fn factor_table_spec() -> Seq<Option<(u8, u8, i8)>> {
    let work = ft_fill_outer(ft_init(256), 2);
    let kept = ft_pruned(ft_retain(work, 0));
    let m = ft_map_from(kept, 0, Seq::new(256, |q: int| None::<(u8, u8)>));
    ft_build(m, 11, Seq::new(256, |q: int| None::<(u8, u8, i8)>))
}

/// Generate a table of factors and differences for the numbers 0 to
/// 255: to get a number back, the two factors are multiplied and the
/// difference is added. Used to shorten the generated code, which
/// realizes a multiplication as a loop. Numbers up to ten have no
/// entry (they are repeated increments); every other number has one,
/// with both factors at least two, chosen to keep the factor sum and
/// the correction small.
#[verifier::rlimit(100)]
pub fn factor_table() -> (r: Vec<Option<(u8, u8, i8)>>)
    ensures
        r@ == factor_table_spec(),
        r@.len() == 256,
        forall|n: int| 0 <= n <= 10 ==> (#[trigger] r@[n]) is None,
        forall|n: int|
            11 <= n < 256 ==> match #[trigger] r@[n] {
                Some(f) => entry_represents(f, n),
                None => false,
            },
{
    // working table, one slot per number, filled with a sentinel
    let mut work: Vec<(u8, u8, u8)> = Vec::new();
    let mut i: usize = 0;
    while i < 256
        invariant
            i <= 256,
            work@.len() == i,
            work@ == ft_init(i as nat),
            forall|k: int| 0 <= k < i ==> (#[trigger] work@[k]) == (k as u8, 255u8, 255u8),
        decreases 256 - i,
    {
        work.push((i as u8, 255, 255));
        proof {
            assert(work@ =~= ft_init((i + 1) as nat));
        }
        i = i + 1;
    }
    // keep, for every product n = f1 * f2 <= 255 with both factors at
    // least two, the pair with the smallest factor sum
    let ghost work0 = work@;
    let mut f1: usize = 2;
    while f1 < 255
        invariant
            2 <= f1 <= 255,
            work@.len() == 256,
            ft_fill_outer(work@, f1 as nat) == ft_fill_outer(work0, 2),
            forall|k: int|
                0 <= k < 256 ==> {
                    let e = #[trigger] work@[k];
                    e.0 == k as u8 && ((e.1 == 255 && e.2 == 255) || (2 <= e.1 <= e.2
                        && e.1 as int * e.2 as int == k))
                },
        decreases 255 - f1,
    {
        let mut f2: usize = f1;
        proof {
            assert(ft_fill_outer(work@, f1 as nat) == ft_fill_outer(
                ft_fill_inner(work@, f1 as nat, f1 as nat),
                (f1 + 1) as nat,
            ));
        }
        while f2 < 255
            invariant
                2 <= f1 < 255,
                f1 <= f2 <= 255,
                work@.len() == 256,
                ft_fill_outer(ft_fill_inner(work@, f1 as nat, f2 as nat), (f1 + 1) as nat)
                    == ft_fill_outer(work0, 2),
                forall|k: int|
                    0 <= k < 256 ==> {
                        let e = #[trigger] work@[k];
                        e.0 == k as u8 && ((e.1 == 255 && e.2 == 255) || (2 <= e.1 <= e.2
                            && e.1 as int * e.2 as int == k))
                    },
            decreases 255 - f2,
        {
            proof {
                assert(f1 * f2 < 65025) by (nonlinear_arith)
                    requires
                        f1 < 255,
                        f2 < 255,
                ;
            }
            let mul = f1 * f2;
            if mul > 255 {
                proof {
                    assert(ft_fill_inner(work@, f1 as nat, f2 as nat) == work@);
                    assert(ft_fill_inner(work@, f1 as nat, 255nat) == work@);
                }
                f2 = 255;
            } else {
                let ghost pre = work@;
                let cur = work[mul];
                let s = cur.1 as usize + cur.2 as usize;
                let cur_sum = if s > 255 {
                    255
                } else {
                    s
                };
                if f1 + f2 < cur_sum {
                    work.set(mul, (cur.0, f1 as u8, f2 as u8));
                }
                proof {
                    assert(work@ == ft_fill_step(pre, f1 as nat, f2 as nat));
                    assert(ft_fill_inner(pre, f1 as nat, f2 as nat) == ft_fill_inner(
                        work@,
                        f1 as nat,
                        (f2 + 1) as nat,
                    ));
                }
                f2 = f2 + 1;
            }
        }
        proof {
            assert(ft_fill_inner(work@, f1 as nat, f2 as nat) == work@);
        }
        f1 = f1 + 1;
    }
    proof {
        assert(ft_fill_outer(work@, 255nat) == work@);
        assert(work@ == ft_fill_outer(work0, 2));
    }
    // drop the slots that never received factors, and the numbers that
    // are shorter written as repeated increments
    let mut kept: Vec<(u8, u8, u8)> = Vec::new();
    let mut i2: usize = 0;
    proof {
        assert(kept@ + ft_retain(work@, 0) =~= ft_retain(work@, 0));
    }
    while i2 < 256
        invariant
            i2 <= 256,
            work@.len() == 256,
            ft_retain(work@, 0) == kept@ + ft_retain(work@, i2 as nat),
            forall|k: int|
                0 <= k < 256 ==> {
                    let e = #[trigger] work@[k];
                    e.0 == k as u8 && ((e.1 == 255 && e.2 == 255) || (2 <= e.1 <= e.2
                        && e.1 as int * e.2 as int == k))
                },
            work_entries_ok(kept@),
        decreases 256 - i2,
    {
        let ghost pre = kept@;
        let e = work[i2];
        if !(e.1 == 255 && e.2 == 255) && e.0 > 10 {
            kept.push(e);
        }
        proof {
            if ft_keep(work@[i2 as int]) {
                assert(ft_retain(work@, i2 as nat) == seq![work@[i2 as int]] + ft_retain(
                    work@,
                    (i2 + 1) as nat,
                ));
                assert(pre + (seq![work@[i2 as int]] + ft_retain(work@, (i2 + 1) as nat))
                    =~= kept@ + ft_retain(work@, (i2 + 1) as nat));
            } else {
                assert(ft_retain(work@, i2 as nat) == ft_retain(work@, (i2 + 1) as nat));
            }
        }
        i2 = i2 + 1;
    }
    proof {
        assert(ft_retain(work@, 256nat) =~= Seq::<(u8, u8, u8)>::empty());
        assert(kept@ + ft_retain(work@, 256nat) =~= kept@);
        assert(kept@ == ft_retain(work@, 0));
    }
    let ghost retained = kept@;
    // prune an entry whose factors cost no less than its predecessor's
    // factors plus corrections
    let mut idx: usize = 1;
    while idx < kept.len()
        invariant
            1 <= idx,
            work_entries_ok(kept@),
            ft_prune1(kept@, idx as nat) == ft_prune1(retained, 1),
        decreases kept@.len() - idx,
    {
        let ghost pre = kept@;
        let a = kept[idx];
        let b = kept[idx - 1];
        if a.1 as i64 + a.2 as i64 >= b.1 as i64 + b.2 as i64 + (a.0 as i64 - b.0 as i64) {
            kept.remove(idx);
            proof {
                assert(ft_prune1_cond(pre[idx as int], pre[idx as int - 1]));
                assert(ft_prune1(pre, idx as nat) == ft_prune1(kept@, idx as nat));
            }
        } else {
            proof {
                assert(!ft_prune1_cond(pre[idx as int], pre[idx as int - 1]));
                assert(ft_prune1(pre, idx as nat) == ft_prune1(pre, (idx + 1) as nat));
            }
            idx = idx + 1;
        }
    }
    proof {
        assert(ft_prune1(kept@, idx as nat) == kept@);
        assert(kept@ == ft_prune1(retained, 1));
    }
    // prune an entry whose factors cost no less than its successor's
    // factors plus corrections
    let ghost p1 = kept@;
    if kept.len() > 0 {
        let mut ii: usize = kept.len() - 1;
        while ii > 0
            invariant
                ii < kept@.len(),
                work_entries_ok(kept@),
                ft_prune2(kept@, ii as nat) == ft_prune2(p1, (p1.len() - 1) as nat),
            decreases ii,
        {
            let ghost pre = kept@;
            ii = ii - 1;
            let a = kept[ii];
            let b = kept[ii + 1];
            if a.1 as i64 + a.2 as i64 >= b.1 as i64 + b.2 as i64 + (b.0 as i64 - a.0 as i64) {
                kept.remove(ii);
                proof {
                    assert(ft_prune2_cond(pre[ii as int], pre[ii as int + 1]));
                    assert(ft_prune2(pre, (ii + 1) as nat) == ft_prune2(kept@, ii as nat));
                }
            } else {
                proof {
                    assert(!ft_prune2_cond(pre[ii as int], pre[ii as int + 1]));
                    assert(ft_prune2(pre, (ii + 1) as nat) == ft_prune2(pre, ii as nat));
                }
            }
        }
        proof {
            assert(ft_prune2(kept@, 0nat) == kept@);
        }
    }
    proof {
        assert(kept@ == ft_pruned(retained));
    }
    let ghost retained_pruned = kept@;
    // the kept numbers with their factors, one slot per number
    let mut fmap: Vec<Option<(u8, u8)>> = vec![None; 256];
    let mut i3: usize = 0;
    proof {
        assert(fmap@ =~= Seq::new(256, |q: int| None::<(u8, u8)>));
    }
    while i3 < kept.len()
        invariant
            fmap@.len() == 256,
            work_entries_ok(kept@),
            ft_map_from(kept@, i3 as nat, fmap@) == ft_map_from(
                kept@,
                0,
                Seq::new(256, |q: int| None::<(u8, u8)>),
            ),
            forall|k: int|
                0 <= k < 256 ==> match #[trigger] fmap@[k] {
                    Some(f) => 2 <= f.0 <= f.1 && f.0 as int * f.1 as int == k,
                    None => true,
                },
        decreases kept@.len() - i3,
    {
        let ghost pre = fmap@;
        let e = kept[i3];
        fmap.set(e.0 as usize, Some((e.1, e.2)));
        proof {
            assert(ft_map_from(kept@, i3 as nat, pre) == ft_map_from(
                kept@,
                (i3 + 1) as nat,
                fmap@,
            ));
        }
        i3 = i3 + 1;
    }
    proof {
        assert(ft_map_from(kept@, kept@.len() as nat, fmap@) == fmap@);
        assert(fmap@ == ft_map_from(retained_pruned, 0, Seq::new(256, |q: int| None::<(u8, u8)>)));
    }
    // for each number, search up and down for the closest factored
    // number and correct the difference with increments or decrements
    let mut table: Vec<Option<(u8, u8, i8)>> = vec![None; 256];
    let mut n: usize = 11;
    proof {
        assert(table@ =~= Seq::new(256, |q: int| None::<(u8, u8, i8)>));
    }
    while n < 256
        invariant
            11 <= n <= 256,
            table@.len() == 256,
            fmap@.len() == 256,
            ft_build(fmap@, n as nat, table@) == ft_build(
                fmap@,
                11,
                Seq::new(256, |q: int| None::<(u8, u8, i8)>),
            ),
            forall|k: int|
                0 <= k < 256 ==> match #[trigger] fmap@[k] {
                    Some(f) => 2 <= f.0 <= f.1 && f.0 as int * f.1 as int == k,
                    None => true,
                },
            forall|k: int| 0 <= k <= 10 ==> (#[trigger] table@[k]) is None,
            forall|k: int|
                11 <= k < n ==> match #[trigger] table@[k] {
                    Some(f) => entry_represents(f, k),
                    None => false,
                },
            forall|k: int| n <= k < 256 ==> (#[trigger] table@[k]) is None,
        decreases 256 - n,
    {
        let mut low: usize = n;
        let mut high: usize = n;
        let mut tries: usize = 0;
        while tries < 256 && fmap[low].is_none() && fmap[high].is_none()
            invariant
                low <= n <= high,
                high <= 255,
                n < 256,
                fmap@.len() == 256,
                ft_search(fmap@, low as nat, high as nat, tries as nat) == ft_search(
                    fmap@,
                    n as nat,
                    n as nat,
                    0,
                ),
            decreases 256 - tries,
        {
            proof {
                assert(ft_search(fmap@, low as nat, high as nat, tries as nat) == ft_search(
                    fmap@,
                    if low > 0 {
                        (low - 1) as nat
                    } else {
                        low as nat
                    },
                    if high < 255 {
                        (high + 1) as nat
                    } else {
                        high as nat
                    },
                    (tries + 1) as nat,
                ));
            }
            high = if high < 255 {
                high + 1
            } else {
                high
            };
            low = if low > 0 {
                low - 1
            } else {
                low
            };
            tries = tries + 1;
        }
        proof {
            assert(ft_search(fmap@, low as nat, high as nat, tries as nat) == (
                low as nat,
                high as nat,
            ));
        }
        let fac_low = fmap[low];
        let fac_high = fmap[high];
        let fac: Option<(u8, u8)> = match (fac_low, fac_high) {
            (Some(fl), Some(fh)) => {
                if (fl.0 as usize + fl.1 as usize) < (fh.0 as usize + fh.1 as usize) {
                    Some(fl)
                } else {
                    Some(fh)
                }
            },
            (Some(fl), None) => Some(fl),
            (None, Some(fh)) => Some(fh),
            (None, None) => None,
        };
        // the correction written as repeated increments must fit one
        // byte; the plain halving entry below is always representable
        proof {
            assert(n as int == 2 * (n as int / 2) + n as int % 2) by (nonlinear_arith);
            assert((n / 2) as int == n as int / 2) by (nonlinear_arith)
                requires
                    n >= 1,
            ;
        }
        let mut entry: (u8, u8, i8) = (2, (n / 2) as u8, (n % 2) as i8);
        match fac {
            Some(f) => {
                let prod: usize = f.0 as usize * f.1 as usize;
                if n >= prod {
                    let d = n - prod;
                    if d <= 127 {
                        entry = (f.0, f.1, d as i8);
                    }
                } else {
                    let d = prod - n;
                    if d <= 128 {
                        entry = (f.0, f.1, (0 - (d as i64)) as i8);
                    }
                }
            },
            None => {},
        }
        proof {
            assert(entry == ft_entry(fmap@, n as nat));
            let ghost pre = table@;
            assert(ft_build(fmap@, n as nat, pre) == ft_build(
                fmap@,
                (n + 1) as nat,
                pre.update(n as int, Some(ft_entry(fmap@, n as nat))),
            ));
        }
        table.set(n, Some(entry));
        n = n + 1;
    }
    proof {
        assert(ft_build(fmap@, 256nat, table@) == table@);
        assert(work0 == ft_init(256));
        assert(table@ == factor_table_spec());
    }
    table
}

/// The piece repeated `k` times.
pub open spec fn repeat_seq(p: Seq<char>, k: nat) -> Seq<char>
    decreases k,
{
    if k == 0 {
        Seq::empty()
    } else {
        repeat_seq(p, (k - 1) as nat) + p
    }
}

/// Append `piece` to `s`, `k` times.
pub(crate) fn append_repeat(s: &mut String, piece: &str, k: usize)
    ensures
        final(s)@ == old(s)@ + repeat_seq(piece@, k as nat),
{
    let mut done: usize = 0;
    proof {
        assert(s@ + repeat_seq(piece@, 0) =~= s@);
    }
    while done < k
        invariant
            done <= k,
            s@ == old(s)@ + repeat_seq(piece@, done as nat),
        decreases k - done,
    {
        s.append(piece);
        done = done + 1;
        proof {
            assert(old(s)@ + repeat_seq(piece@, done as nat) =~= (old(s)@ + repeat_seq(
                piece@,
                (done - 1) as nat,
            )) + piece@);
        }
    }
}

/// The code that stores one byte into the current cell and moves on:
/// small bytes are written as repeated increments; larger ones as a
/// multiplication loop over the byte's table factors followed by a
/// correction.
pub open spec fn store_one(b: u8, e: Option<(u8, u8, i8)>) -> Seq<char> {
    match e {
        Some(f) => {
            if b <= 10 {
                repeat_seq(seq!['+'], b as nat) + seq!['>']
            } else {
                let head = seq!['>'] + repeat_seq(seq!['+'], f.0 as nat) + seq!['[', '<']
                    + repeat_seq(seq!['+'], f.1 as nat) + seq!['>', '-', ']'];
                if f.2 > 0 {
                    head + seq!['<'] + repeat_seq(seq!['+'], f.2 as nat) + seq!['>']
                } else if f.2 < 0 {
                    head + seq!['<'] + repeat_seq(seq!['-'], (0 - f.2 as int) as nat) + seq!['>']
                } else {
                    head
                }
            }
        },
        None => repeat_seq(seq!['+'], b as nat) + seq!['>'],
    }
}

/// The code that stores a sequence of bytes into consecutive cells,
/// one [`store_one`] piece per byte, leaving the data pointer one past
/// the last stored byte.
pub open spec fn store_code(bytes: Seq<u8>, table: Seq<Option<(u8, u8, i8)>>) -> Seq<char>
    decreases bytes.len(),
{
    if bytes.len() == 0 {
        Seq::empty()
    } else {
        let e = if 0 <= bytes[0] < table.len() {
            table[bytes[0] as int]
        } else {
            None
        };
        store_one(bytes[0], e) + store_code(bytes.drop_first(), table)
    }
}

/// A factor table as [`factor_table`] describes it.
pub open spec fn table_ok(table: Seq<Option<(u8, u8, i8)>>) -> bool {
    &&& table.len() == 256
    &&& forall|n: int| 0 <= n <= 10 ==> (#[trigger] table[n]) is None
    &&& forall|n: int|
        11 <= n < 256 ==> match #[trigger] table[n] {
            Some(f) => entry_represents(f, n),
            None => false,
        }
}

/// Generate code that stores the given bytes into the cells starting
/// at the current data pointer, leaving the pointer one past the last
/// stored byte: each byte is realized as [`store_one`] over a factor
/// table with the properties of [`factor_table`].
#[verifier::rlimit(100)]
pub fn store_bf_bytes(bytes: &[u8]) -> (r: String)
    ensures
        exists|table: Seq<Option<(u8, u8, i8)>>|
            #[trigger] table_ok(table) && r@ == store_code(bytes@, table),
{
    let table = factor_table();
    let mut store = String::new();
    let n = bytes.len();
    let mut i: usize = 0;
    proof {
        reveal_strlit("+");
        reveal_strlit("-");
        reveal_strlit(">");
        reveal_strlit("<");
        reveal_strlit("[");
        reveal_strlit("]");
        reveal_strlit(">-]");
        assert(store@ + store_code(bytes@.subrange(0, 0), table@) =~= store@);
    }
    while i < n
        invariant
            i <= n,
            n == bytes@.len(),
            table_ok(table@),
            store@ == store_code(bytes@.subrange(0, i as int), table@),
        decreases n - i,
    {
        let ghost pre = store@;
        let b = bytes[i];
        let entry = table[b as usize];
        match entry {
            Some(f) => {
                if b <= 10 {
                    append_repeat(&mut store, "+", b as usize);
                    store.append(">");
                } else {
                    store.append(">");
                    append_repeat(&mut store, "+", f.0 as usize);
                    store.append("[");
                    store.append("<");
                    append_repeat(&mut store, "+", f.1 as usize);
                    store.append(">-]");
                    if f.2 > 0 {
                        store.append("<");
                        append_repeat(&mut store, "+", f.2 as usize);
                        store.append(">");
                    } else if f.2 < 0 {
                        store.append("<");
                        append_repeat(&mut store, "-", (0 - f.2 as i64) as usize);
                        store.append(">");
                    }
                }
            },
            None => {
                append_repeat(&mut store, "+", b as usize);
                store.append(">");
            },
        }
        proof {
            reveal_strlit("+");
            reveal_strlit("-");
            reveal_strlit(">");
            reveal_strlit("<");
            reveal_strlit("[");
            reveal_strlit("]");
            reveal_strlit(">-]");
            assert("+"@ =~= seq!['+']);
            assert("-"@ =~= seq!['-']);
            assert(">"@ =~= seq!['>']);
            assert("<"@ =~= seq!['<']);
            assert("["@ =~= seq!['[']);
            assert(">-]"@ =~= seq!['>', '-', ']']);
            assert(store@ =~= pre + store_one(b, table@[b as int]));
            assert(bytes@.subrange(0, i as int + 1).drop_first() =~= bytes@.subrange(
                1,
                i as int + 1,
            ));
            lemma_store_code_snoc(bytes@.subrange(0, i as int + 1), table@);
            assert(bytes@.subrange(0, i as int + 1).drop_last() =~= bytes@.subrange(0, i as int));
            assert(store@ =~= store_code(bytes@.subrange(0, i as int + 1), table@));
        }
        i = i + 1;
    }
    proof {
        assert(bytes@.subrange(0, n as int) =~= bytes@);
    }
    store
}

/// Peeling the last byte off the store code.
proof fn lemma_store_code_snoc(bytes: Seq<u8>, table: Seq<Option<(u8, u8, i8)>>)
    requires
        bytes.len() > 0,
    ensures
        store_code(bytes, table) == store_code(bytes.drop_last(), table) + store_one(
            bytes.last(),
            if 0 <= bytes.last() < table.len() {
                table[bytes.last() as int]
            } else {
                None
            },
        ),
    decreases bytes.len(),
{
    if bytes.len() == 1 {
        assert(bytes.drop_first() =~= Seq::<u8>::empty());
        assert(bytes.drop_last() =~= Seq::<u8>::empty());
        assert(store_code(bytes.drop_last(), table) =~= Seq::<char>::empty());
        assert(bytes.last() == bytes[0]);
        assert(store_code(bytes, table) =~= store_one(
            bytes[0],
            if 0 <= bytes[0] < table.len() {
                table[bytes[0] as int]
            } else {
                None
            },
        ));
    } else {
        lemma_store_code_snoc(bytes.drop_first(), table);
        assert(bytes.drop_first().drop_last() =~= bytes.drop_last().drop_first());
        assert(bytes.drop_first().last() == bytes.last());
        assert(bytes.drop_last()[0] == bytes[0]);
        assert(store_code(bytes, table) =~= store_one(
            bytes[0],
            if 0 <= bytes[0] < table.len() {
                table[bytes[0] as int]
            } else {
                None
            },
        ) + store_code(bytes.drop_first(), table));
    }
}

/// The first index at which `b` stands in `ord` (meaningful only when
/// `ord` contains `b`).
pub open spec fn find_idx(ord: Seq<u8>, b: u8) -> int
    decreases ord.len(),
{
    if ord.len() == 0 {
        0
    } else if ord[0] == b {
        0
    } else {
        1 + find_idx(ord.drop_first(), b)
    }
}

/// Where `ord` contains `b`, [`find_idx`] is its first occurrence.
proof fn lemma_find_idx(ord: Seq<u8>, b: u8)
    requires
        ord.contains(b),
    ensures
        0 <= find_idx(ord, b) < ord.len(),
        ord[find_idx(ord, b)] == b,
        forall|j: int| 0 <= j < find_idx(ord, b) ==> ord[j] != b,
    decreases ord.len(),
{
    if ord.len() > 0 && ord[0] != b {
        let w = choose|w: int| 0 <= w < ord.len() && ord[w] == b;
        assert(ord.drop_first()[w - 1] == b);
        assert(ord.drop_first().contains(b));
        lemma_find_idx(ord.drop_first(), b);
        assert forall|j: int| 0 <= j < find_idx(ord, b) implies ord[j] != b by {
            if j > 0 {
                assert(ord.drop_first()[j - 1] == ord[j]);
            }
        }
    }
}

/// The code that prints the given bytes from the cells where they are
/// stored: for each byte, the moves from the current cell to the cell
/// holding it, then one output command.
pub open spec fn print_code(bytes: Seq<u8>, ord: Seq<u8>, pos: int) -> Seq<char>
    decreases bytes.len(),
{
    if bytes.len() == 0 {
        Seq::empty()
    } else {
        let np = find_idx(ord, bytes[0]);
        let moves = if np > pos {
            repeat_seq(seq!['>'], (np - pos) as nat)
        } else if np < pos {
            repeat_seq(seq!['<'], (pos - np) as nat)
        } else {
            Seq::empty()
        };
        moves + seq!['.'] + print_code(bytes.drop_first(), ord, np)
    }
}

/// Generate code that prints `text_bytes` from the cells where
/// `store_ord` was stored, the data pointer standing at `position`:
/// for each byte, move to the cell that holds it and write it out.
/// Every byte to print must be among the stored ones.
pub fn print_bf_bytes(text_bytes: &[u8], store_ord: &[u8], position: usize) -> (r: String)
    requires
        forall|i: int|
            0 <= i < text_bytes@.len() ==> store_ord@.contains(#[trigger] text_bytes@[i]),
    ensures
        r@ == print_code(text_bytes@, store_ord@, position as int),
{
    let mut bf_code = String::new();
    let mut curr_pos: usize = position;
    let n = text_bytes.len();
    let ord_n = store_ord.len();
    let mut i: usize = 0;
    proof {
        assert(text_bytes@.subrange(0, text_bytes@.len() as int) =~= text_bytes@);
        assert(bf_code@ + print_code(text_bytes@, store_ord@, position as int) =~= print_code(
            text_bytes@,
            store_ord@,
            position as int,
        ));
    }
    while i < n
        invariant
            i <= n,
            n == text_bytes@.len(),
            ord_n == store_ord@.len(),
            forall|j: int|
                0 <= j < text_bytes@.len() ==> store_ord@.contains(#[trigger] text_bytes@[j]),
            print_code(text_bytes@, store_ord@, position as int) == bf_code@ + print_code(
                text_bytes@.subrange(i as int, n as int),
                store_ord@,
                curr_pos as int,
            ),
        decreases n - i,
    {
        let b = text_bytes[i];
        proof {
            lemma_find_idx(store_ord@, b);
        }
        // first position of the byte among the stored ones
        let mut np: usize = 0;
        while np < ord_n && store_ord[np] != b
            invariant
                ord_n == store_ord@.len(),
                np <= store_ord@.len(),
                forall|j: int| 0 <= j < np ==> store_ord@[j] != b,
            decreases store_ord@.len() - np,
        {
            np = np + 1;
        }
        proof {
            assert(store_ord@.contains(b));
            if np == store_ord@.len() {
                let w = find_idx(store_ord@, b);
                assert(store_ord@[w] != b);
                assert(false);
            }
            assert(np == find_idx(store_ord@, b)) by {
                let f = find_idx(store_ord@, b);
                if np < f {
                    assert(store_ord@[np as int] != b);
                } else if f < np {
                    assert(store_ord@[f] != b);
                }
            }
        }
        let ghost pre = bf_code@;
        if np > curr_pos {
            append_repeat(&mut bf_code, ">", np - curr_pos);
        } else if np < curr_pos {
            append_repeat(&mut bf_code, "<", curr_pos - np);
        }
        bf_code.append(".");
        proof {
            reveal_strlit(">");
            reveal_strlit("<");
            reveal_strlit(".");
            assert(">"@ =~= seq!['>']);
            assert("<"@ =~= seq!['<']);
            assert(text_bytes@.subrange(i as int, n as int)[0] == b);
            assert(text_bytes@.subrange(i as int, n as int).drop_first() =~= text_bytes@.subrange(
                i as int + 1,
                n as int,
            ));
            let moves = if np as int > curr_pos as int {
                repeat_seq(seq!['>'], (np - curr_pos) as nat)
            } else if np < curr_pos {
                repeat_seq(seq!['<'], (curr_pos - np) as nat)
            } else {
                Seq::<char>::empty()
            };
            assert(bf_code@ =~= pre + (moves + seq!['.']));
            assert(print_code(text_bytes@.subrange(i as int, n as int), store_ord@, curr_pos as int)
                =~= (moves + seq!['.']) + print_code(
                text_bytes@.subrange(i as int + 1, n as int),
                store_ord@,
                np as int,
            ));
            assert(pre + ((moves + seq!['.']) + print_code(
                text_bytes@.subrange(i as int + 1, n as int),
                store_ord@,
                np as int,
            )) =~= bf_code@ + print_code(
                text_bytes@.subrange(i as int + 1, n as int),
                store_ord@,
                np as int,
            ));
        }
        curr_pos = np;
        i = i + 1;
    }
    proof {
        assert(print_code(text_bytes@.subrange(n as int, n as int), store_ord@, curr_pos as int)
            =~= Seq::<char>::empty());
        assert(bf_code@ + Seq::<char>::empty() =~= bf_code@);
    }
    bf_code
}

/// Strictly ascending: sorted with no duplicates.
pub open spec fn strictly_sorted(s: Seq<u8>) -> bool {
    forall|i: int, j: int| 0 <= i < j < s.len() ==> s[i] < s[j]
}

/// The values of `v` in ascending order, each once: what sorting and
/// deduplicating yields, pinned by being strictly sorted with exactly
/// the values of `v`.
fn sorted_dedup(v: &Vec<u8>) -> (r: Vec<u8>)
    ensures
        strictly_sorted(r@),
        forall|b: u8| r@.contains(b) <==> v@.contains(b),
{
    let mut present: Vec<bool> = vec![false; 256];
    let n = v.len();
    let mut i: usize = 0;
    while i < n
        invariant
            i <= n,
            n == v@.len(),
            present@.len() == 256,
            forall|k: int|
                0 <= k < 256 ==> #[trigger] present@[k] == v@.subrange(0, i as int).contains(
                    k as u8,
                ),
        decreases n - i,
    {
        let b = v[i];
        let ghost pre = present@;
        present.set(b as usize, true);
        proof {
            assert(v@.subrange(0, i as int + 1).drop_last() =~= v@.subrange(0, i as int));
            assert(v@.subrange(0, i as int + 1).last() == b);
            assert forall|k: int| 0 <= k < 256 implies #[trigger] present@[k] == v@.subrange(
                0,
                i as int + 1,
            ).contains(k as u8) by {
                let sub0 = v@.subrange(0, i as int);
                let sub1 = v@.subrange(0, i as int + 1);
                if k == b {
                    assert(sub1[i as int] == b);
                    assert(sub1.contains(b));
                } else {
                    if sub1.contains(k as u8) {
                        let w = choose|w: int| 0 <= w < sub1.len() && sub1[w] == k as u8;
                        assert(sub0[w] == k as u8);
                        assert(sub0.contains(k as u8));
                    }
                    if sub0.contains(k as u8) {
                        let w = choose|w: int| 0 <= w < sub0.len() && sub0[w] == k as u8;
                        assert(sub1[w] == k as u8);
                    }
                }
            }
        }
        i = i + 1;
    }
    proof {
        assert(v@.subrange(0, n as int) =~= v@);
    }
    let mut out: Vec<u8> = Vec::new();
    let mut k: usize = 0;
    while k < 256
        invariant
            k <= 256,
            present@.len() == 256,
            forall|q: int| 0 <= q < 256 ==> #[trigger] present@[q] == v@.contains(q as u8),
            strictly_sorted(out@),
            forall|q: int| 0 <= q < out@.len() ==> (#[trigger] out@[q]) < k,
            forall|b: u8| out@.contains(b) <==> (b < k && v@.contains(b)),
        decreases 256 - k,
    {
        if present[k] {
            let ghost pre = out@;
            out.push(k as u8);
            proof {
                assert forall|b: u8| out@.contains(b) <==> (b < k + 1 && v@.contains(b)) by {
                    if out@.contains(b) {
                        let w = choose|w: int| 0 <= w < out@.len() && out@[w] == b;
                        if w < pre.len() {
                            assert(pre[w] == b);
                            assert(pre.contains(b));
                        }
                    }
                    if b < k + 1 && v@.contains(b) {
                        if b < k {
                            assert(pre.contains(b));
                            let w = choose|w: int| 0 <= w < pre.len() && pre[w] == b;
                            assert(out@[w] == b);
                        } else {
                            assert(out@[out@.len() - 1] == b);
                        }
                    }
                }
            }
        } else {
            proof {
                assert forall|b: u8| out@.contains(b) <==> (b < k + 1 && v@.contains(b)) by {
                    if b == k {
                        assert(!v@.contains(b));
                    }
                }
            }
        }
        k = k + 1;
    }
    out
}

/// Generate code that prints the provided text: the text's bytes are
/// converted, the distinct byte values are stored in ascending order
/// into consecutive cells, and the text is printed by moving between
/// those cells. Fails on the first non-ASCII character.
pub fn text_2_bf(text: &str) -> (r: Result<String, Error>)
    requires
        text@.len() < usize::MAX,
    ensures
        match r {
            Ok(code) => exists|ord: Seq<u8>, table: Seq<Option<(u8, u8, i8)>>|
                {
                    &&& bytes_spec(text@) is Ok
                    &&& #[trigger] strictly_sorted(ord)
                    &&& forall|b: u8| ord.contains(b) <==> bytes_spec(text@).unwrap().contains(b)
                    &&& #[trigger] table_ok(table)
                    &&& code@ == store_code(ord, table) + print_code(
                        bytes_spec(text@).unwrap(),
                        ord,
                        ord.len() as int,
                    )
                },
            Err(e) => Err::<Seq<u8>, Error>(e) == bytes_spec(text@),
        },
{
    let bytes = match text_2_bytes(text) {
        Ok(b) => b,
        Err(e) => {
            return Err(e);
        },
    };
    let store_order = sorted_dedup(&bytes);
    let mut bf_code = store_bf_bytes(store_order.as_slice());
    proof {
        assert forall|i: int| 0 <= i < bytes@.len() implies store_order@.contains(
            #[trigger] bytes@[i],
        ) by {
            assert(bytes@.contains(bytes@[i]));
        }
    }
    let printed = print_bf_bytes(bytes.as_slice(), store_order.as_slice(), store_order.len());
    bf_code.append(printed.as_str());
    Ok(bf_code)
}

} // verus!

//! The name-similarity metric for fuzzy menu lookup.
//!
//! This is the Jaro-Winkler metric computed in exact integer arithmetic:
//! characters of one string are greedily matched to near positions in the
//! other, transposed matches count half, and a shared prefix of up to
//! four characters raises the score.  The result is returned as a
//! distance scaled to thousandths — 0 for equal strings, 1000 for
//! unrelated ones — so that no floating point ever enters the ranking.
//!
//! The spec functions in this module are the metric's definition; the
//! executable search is proved to compute exactly that.

use vstd::prelude::*;
use vstd::string::StrSliceExecFns;

verus! {

/// Length cap: longer inputs are treated as unrelated.
pub open spec fn len_cap() -> int {
    1000000
}

/// The matching window: half the longer length, less one, at least zero.
pub open spec fn win(la: int, lb: int) -> int {
    let mx = if la >= lb {
        la
    } else {
        lb
    };
    if mx / 2 >= 1 {
        mx / 2 - 1
    } else {
        0
    }
}

/// First window position for index `i`.
pub open spec fn lo_of(i: int, w: int) -> int {
    if i > w {
        i - w
    } else {
        0
    }
}

/// One-past-last window position for index `i`.
pub open spec fn hi_of(i: int, w: int, lb: int) -> int {
    if i + w + 1 < lb {
        i + w + 1
    } else {
        lb
    }
}

/// The first free position in `b[j..hi)` holding `c`, or `-1`.
pub open spec fn find_free(c: char, b: Seq<char>, used: Seq<int>, j: int, hi: int) -> int
    decreases hi - j,
{
    if j < 0 || j >= hi || hi > b.len() {
        -1
    } else if b[j] == c && !used.contains(j) {
        j
    } else {
        find_free(c, b, used, j + 1, hi)
    }
}

/// Greedy left-to-right matching: each character of `a`, from `i` on,
/// takes the first free position of `b` within its window.  Yields the
/// matched positions of `b`, in `a`'s order.
pub open spec fn greedy_matches(a: Seq<char>, b: Seq<char>, w: int, i: int, used: Seq<int>) -> Seq<
    int,
>
    decreases a.len() - i,
{
    if i < 0 || i >= a.len() {
        Seq::empty()
    } else {
        let j = find_free(a[i], b, used, lo_of(i, w), hi_of(i, w, b.len() as int));
        if j >= 0 {
            seq![j] + greedy_matches(a, b, w, i + 1, used.push(j))
        } else {
            greedy_matches(a, b, w, i + 1, used)
        }
    }
}

/// The matched positions of `b` for the whole of `a`.
pub open spec fn match_positions(a: Seq<char>, b: Seq<char>) -> Seq<int> {
    greedy_matches(a, b, win(a.len() as int, b.len() as int), 0, Seq::empty())
}

/// The characters of `a` that found a match, in `a`'s order: since the
/// positions are recorded in `a`'s order, these are `b`'s characters at
/// those positions re-read through `a`'s eyes — for the transposition
/// count we need both sides.
pub open spec fn matched_chars_by_positions(b: Seq<char>, js: Seq<int>) -> Seq<char> {
    Seq::new(js.len(), |k: int| b[js[k]])
}

/// The matched characters of `b` in `b`'s own order.
pub open spec fn b_side_chars(b: Seq<char>, js: Seq<int>, j: int) -> Seq<char>
    decreases b.len() - j,
{
    if j < 0 || j >= b.len() {
        Seq::empty()
    } else if js.contains(j) {
        seq![b[j]] + b_side_chars(b, js, j + 1)
    } else {
        b_side_chars(b, js, j + 1)
    }
}

/// Positions at which two character runs disagree, up to the shorter.
pub open spec fn mismatch_count(x: Seq<char>, y: Seq<char>, k: int) -> int
    decreases x.len() - k,
{
    if k < 0 || k >= x.len() || k >= y.len() {
        0
    } else {
        (if x[k] == y[k] {
            0int
        } else {
            1int
        }) + mismatch_count(x, y, k + 1)
    }
}

/// Length of the common prefix, capped at four.
pub open spec fn prefix_len(a: Seq<char>, b: Seq<char>, k: int) -> int
    decreases 4 - k,
{
    if k < 0 || k >= 4 || k >= a.len() || k >= b.len() {
        0
    } else if a[k] == b[k] {
        1 + prefix_len(a, b, k + 1)
    } else {
        0
    }
}

/// The scaled Jaro-Winkler distance: `round(1000 * (1 - jw))`, clamped
/// to [0, 1000].  With `m` matches, twice-transpositions `t2`, lengths
/// `la`, `lb`, and prefix `l`:
/// `1 - jaro == n0 / d0` where `d0 == 6*la*lb*m` and
/// `n0 == d0 - 2*m*m*lb - 2*m*m*la - (2*m - t2)*la*lb`, and
/// `1 - jw == (n0/d0) * (10 - l)/10`.
pub open spec fn distance_of(a: Seq<char>, b: Seq<char>) -> int {
    let la = a.len() as int;
    let lb = b.len() as int;
    if la == 0 && lb == 0 {
        0
    } else if la == 0 || lb == 0 {
        1000
    } else if la > len_cap() || lb > len_cap() {
        1000
    } else {
        let js = match_positions(a, b);
        let m = js.len() as int;
        if m == 0 {
            1000
        } else {
            let t2 = mismatch_count(
                matched_chars_by_positions(b, js),
                b_side_chars(b, js, 0),
                0,
            );
            let l = prefix_len(a, b, 0);
            let d0 = 6 * la * lb * m;
            let n0 = d0 - 2 * m * m * lb - 2 * m * m * la - (2 * m - t2) * la * lb;
            if n0 <= 0 {
                0
            } else {
                let raw = (200 * n0 * (10 - l) + d0) / (2 * d0);
                if raw > 1000 {
                    1000
                } else {
                    raw
                }
            }
        }
    }
}

/// Equal strings have distance zero.
pub proof fn lemma_distance_self(a: Seq<char>)
    requires
        a.len() <= len_cap(),
    ensures
        distance_of(a, a) == 0,
{
    let la = a.len() as int;
    if la == 0 {
    } else {
        let w = win(la, la);
        lemma_greedy_self(a, w, 0);
        assert(Seq::new(0nat, |k: int| k) =~= Seq::<int>::empty());
        let js = match_positions(a, a);
        assert(js =~= Seq::new(la as nat, |k: int| k));
        let m = js.len() as int;
        assert(m == la);
        lemma_b_side_identity(a, js, 0);
        assert(a.skip(0) =~= a);
        assert(matched_chars_by_positions(a, js) =~= a);
        lemma_mismatch_equal(a, 0);
        let t2 = mismatch_count(matched_chars_by_positions(a, js), b_side_chars(a, js, 0), 0);
        assert(t2 == 0);
        let d0 = 6 * la * la * m;
        let n0 = d0 - 2 * m * m * la - 2 * m * m * la - (2 * m - t2) * la * la;
        assert(n0 == 0) by (nonlinear_arith)
            requires
                m == la,
                t2 == 0,
                d0 == 6 * la * la * m,
                n0 == d0 - 2 * m * m * la - 2 * m * m * la - (2 * m - t2) * la * la,
        ;
    }
}

/// On equal strings the greedy match takes every position in order.
proof fn lemma_greedy_self(a: Seq<char>, w: int, i: int)
    requires
        0 <= i <= a.len(),
        w >= 0,
    ensures
        greedy_matches(a, a, w, i, Seq::new(i as nat, |k: int| k)) =~= Seq::new(
            (a.len() - i) as nat,
            |k: int| i + k,
        ),
    decreases a.len() - i,
{
    if i < a.len() {
        let used = Seq::new(i as nat, |k: int| k);
        assert(lo_of(i, w) <= i);
        assert(hi_of(i, w, a.len() as int) > i);
        lemma_find_free_self(a[i], a, used, lo_of(i, w), hi_of(i, w, a.len() as int), i);
        assert(used.push(i) =~= Seq::new((i + 1) as nat, |k: int| k));
        lemma_greedy_self(a, w, i + 1);
        assert(seq![i] + Seq::new((a.len() - i - 1) as nat, |k: int| i + 1 + k) =~= Seq::new(
            (a.len() - i) as nat,
            |k: int| i + k,
        ));
    }
}

/// With positions `0..i` used, the search for `a[i]` lands exactly on `i`.
proof fn lemma_find_free_self(c: char, b: Seq<char>, used: Seq<int>, j: int, hi: int, i: int)
    requires
        used =~= Seq::new(i as nat, |k: int| k),
        0 <= i < b.len(),
        0 <= j <= i,
        i < hi <= b.len(),
        b[i] == c,
    ensures
        find_free(c, b, used, j, hi) == i,
    decreases hi - j,
{
    if j < i {
        if b[j] == c && !used.contains(j) {
            assert(used[j] == j);
            assert(false);
        }
        lemma_find_free_self(c, b, used, j + 1, hi, i);
    } else {
        assert(!used.contains(i)) by {
            if used.contains(i) {
                let k = choose|k: int| 0 <= k < used.len() && used[k] == i;
            }
        };
    }
}

/// Reading back the identity match gives the string itself.
proof fn lemma_b_side_identity(b: Seq<char>, js: Seq<int>, j: int)
    requires
        js =~= Seq::new(b.len(), |k: int| k),
        0 <= j <= b.len(),
    ensures
        b_side_chars(b, js, j) =~= b.skip(j),
    decreases b.len() - j,
{
    if j < b.len() {
        assert(js.contains(j)) by {
            assert(js[j] == j);
        };
        lemma_b_side_identity(b, js, j + 1);
        assert(seq![b[j]] + b.skip(j + 1) =~= b.skip(j));
    } else {
        assert(b.skip(j) =~= Seq::empty());
    }
}

/// A run never disagrees with itself.
proof fn lemma_mismatch_equal(x: Seq<char>, k: int)
    requires
        0 <= k,
    ensures
        mismatch_count(x, x, k) == 0,
    decreases x.len() - k,
{
    if k < x.len() {
        lemma_mismatch_equal(x, k + 1);
    }
}

/// Compute the scaled Jaro-Winkler distance between two strings.
pub fn jw_distance(a: &str, b: &str) -> (r: usize)
    ensures
        r as int == distance_of(a@, b@),
        r <= 1000,
{
    let la = a.unicode_len();
    let lb = b.unicode_len();
    if la == 0 && lb == 0 {
        return 0;
    }
    if la == 0 || lb == 0 {
        return 1000;
    }
    if la > 1000000 || lb > 1000000 {
        return 1000;
    }
    let mx = if la >= lb {
        la
    } else {
        lb
    };
    let w: usize = if mx / 2 >= 1 {
        mx / 2 - 1
    } else {
        0
    };
    proof {
        assert(w as int == win(la as int, lb as int));
    }
    // greedy matching
    let mut js: Vec<usize> = Vec::new();
    let ghost gw = w as int;
    let mut i: usize = 0;
    proof {
        assert(js_view(js@) =~= Seq::<int>::empty());
        assert(match_positions(a@, b@) =~= js_view(js@) + greedy_matches(
            a@,
            b@,
            gw,
            0,
            js_view(js@),
        ));
    }
    while i < la
        invariant
            0 <= i <= la,
            la == a@.len(),
            lb == b@.len(),
            la >= 1,
            lb >= 1,
            la <= 1000000,
            lb <= 1000000,
            gw == win(la as int, lb as int),
            w as int == gw,
            w <= 500000,
            js@.len() <= i,
            forall|k: int| 0 <= k < js@.len() ==> (#[trigger] js@[k]) < lb,
            match_positions(a@, b@) =~= js_view(js@) + greedy_matches(
                a@,
                b@,
                gw,
                i as int,
                js_view(js@),
            ),
        decreases la - i,
    {
        let lo: usize = if i > w {
            i - w
        } else {
            0
        };
        let hi: usize = if i + w + 1 < lb {
            i + w + 1
        } else {
            lb
        };
        proof {
            assert(lo as int == lo_of(i as int, gw));
            assert(hi as int == hi_of(i as int, gw, lb as int));
        }
        let ca = a.get_char(i);
        let mut found: Option<usize> = None;
        if lo < hi {
            let mut j: usize = lo;
            loop
                invariant_except_break
                    lo <= j <= hi,
                    hi <= lb,
                    lb == b@.len(),
                    found is None,
                    find_free(ca, b@, js_view(js@), lo as int, hi as int) == find_free(
                        ca,
                        b@,
                        js_view(js@),
                        j as int,
                        hi as int,
                    ),
                ensures
                    match found {
                        Some(p) => {
                            &&& lo <= p < hi
                            &&& p < lb
                            &&& find_free(ca, b@, js_view(js@), lo as int, hi as int) == p as int
                        },
                        None => find_free(ca, b@, js_view(js@), lo as int, hi as int) == -1,
                    },
                decreases hi - j,
            {
                if j == hi {
                    break ;
                }
                if b.get_char(j) == ca && !contains_pos(&js, j) {
                    found = Some(j);
                    break ;
                }
                j = j + 1;
            }
        } else {
            proof {
                assert(find_free(ca, b@, js_view(js@), lo as int, hi as int) == -1);
            }
        }
        match found {
            Some(p) => {
                let ghost js0 = js_view(js@);
                js.push(p);
                proof {
                    assert(js_view(js@) =~= js0.push(p as int));
                    assert(js_view(js@) =~= js0 + seq![p as int]);
                    assert(greedy_matches(a@, b@, gw, i as int, js0) == seq![p as int]
                        + greedy_matches(a@, b@, gw, i + 1, js0.push(p as int)));
                    assert(js0 + (seq![p as int] + greedy_matches(a@, b@, gw, i + 1, js0.push(
                        p as int,
                    ))) =~= js_view(js@) + greedy_matches(a@, b@, gw, i + 1, js_view(js@)));
                }
            },
            None => {
                proof {
                    assert(greedy_matches(a@, b@, gw, i as int, js_view(js@)) == greedy_matches(
                        a@,
                        b@,
                        gw,
                        i + 1,
                        js_view(js@),
                    ));
                }
            },
        }
        i = i + 1;
    }
    proof {
        assert(greedy_matches(a@, b@, gw, la as int, js_view(js@)) =~= Seq::<int>::empty());
        assert(match_positions(a@, b@) =~= js_view(js@));
    }
    let m = js.len();
    if m == 0 {
        return 1000;
    }
    // transpositions: compare the matched characters in both orders
    let mut ach: Vec<char> = Vec::new();
    let mut k: usize = 0;
    while k < m
        invariant
            k <= m,
            m == js@.len(),
            lb == b@.len(),
            forall|q: int| 0 <= q < js@.len() ==> (#[trigger] js@[q]) < lb,
            ach@ =~= matched_chars_by_positions(b@, js_view(js@)).subrange(0, k as int),
        decreases m - k,
    {
        ach.push(b.get_char(js[k]));
        proof {
            assert(ach@ =~= matched_chars_by_positions(b@, js_view(js@)).subrange(0, k + 1));
        }
        k = k + 1;
    }
    proof {
        assert(matched_chars_by_positions(b@, js_view(js@)).subrange(
            0,
            m as int,
        ) =~= matched_chars_by_positions(b@, js_view(js@)));
    }
    let mut bch: Vec<char> = Vec::new();
    let mut j2: usize = 0;
    proof {
        assert(b_side_chars(b@, js_view(js@), 0) =~= bch@ + b_side_chars(b@, js_view(js@), 0));
    }
    while j2 < lb
        invariant
            j2 <= lb,
            lb == b@.len(),
            b_side_chars(b@, js_view(js@), 0) =~= bch@ + b_side_chars(b@, js_view(js@), j2 as int),
        decreases lb - j2,
    {
        if contains_pos(&js, j2) {
            bch.push(b.get_char(j2));
            proof {
                assert(b_side_chars(b@, js_view(js@), j2 as int) == seq![b@[j2 as int]]
                    + b_side_chars(b@, js_view(js@), j2 + 1));
            }
        } else {
            proof {
                assert(b_side_chars(b@, js_view(js@), j2 as int) == b_side_chars(
                    b@,
                    js_view(js@),
                    j2 + 1,
                ));
            }
        }
        j2 = j2 + 1;
    }
    proof {
        assert(b_side_chars(b@, js_view(js@), lb as int) =~= Seq::<char>::empty());
        assert(b_side_chars(b@, js_view(js@), 0) =~= bch@);
    }
    let mut t2: usize = 0;
    let mut k2: usize = 0;
    let tlen = if ach.len() <= bch.len() {
        ach.len()
    } else {
        bch.len()
    };
    while k2 < tlen
        invariant
            k2 <= tlen,
            tlen <= ach@.len(),
            tlen <= bch@.len(),
            tlen == if ach@.len() <= bch@.len() {
                ach@.len() as int
            } else {
                bch@.len() as int
            },
            t2 <= k2,
            t2 as int + mismatch_count(ach@, bch@, k2 as int) == mismatch_count(ach@, bch@, 0),
        decreases tlen - k2,
    {
        if ach[k2] != bch[k2] {
            t2 = t2 + 1;
        }
        k2 = k2 + 1;
    }
    proof {
        assert(mismatch_count(ach@, bch@, tlen as int) == 0);
    }
    // common prefix, capped at four
    let mut l: usize = 0;
    while l < 4 && l < la && l < lb && a.get_char(l) == b.get_char(l)
        invariant
            0 <= l <= 4,
            l <= la,
            l <= lb,
            la == a@.len(),
            lb == b@.len(),
            prefix_len(a@, b@, 0) == l as int + prefix_len(a@, b@, l as int),
        decreases 4 - l,
    {
        l = l + 1;
    }
    proof {
        assert(prefix_len(a@, b@, l as int) == 0);
    }
    // exact arithmetic, scaled to thousandths
    let lai = la as i128;
    let lbi = lb as i128;
    let mi = m as i128;
    let t2i = t2 as i128;
    let li = l as i128;
    proof {
        assert(1 <= lai <= 1000000 && 1 <= lbi <= 1000000 && 1 <= mi <= 1000000 && 0 <= t2i
            <= 1000000 && 0 <= li <= 4);
        lemma_metric_bounds(lai as int, lbi as int, mi as int, t2i as int, li as int);
    }
    let d0: i128 = 6 * lai * lbi * mi;
    let n0: i128 = d0 - 2 * mi * mi * lbi - 2 * mi * mi * lai - (2 * mi - t2i) * lai * lbi;
    if n0 <= 0 {
        return 0;
    }
    let raw: i128 = (200 * n0 * (10 - li) + d0) / (2 * d0);
    proof {
        assert(raw >= 0) by (nonlinear_arith)
            requires
                raw == (200 * n0 * (10 - li) + d0) / (2 * d0),
                n0 >= 1,
                d0 >= 1,
                li <= 4,
        ;
    }
    if raw > 1000 {
        1000
    } else {
        raw as usize
    }
}

/// A position vector as the mathematical position sequence.
pub open spec fn js_view(js: Seq<usize>) -> Seq<int> {
    Seq::new(js.len(), |k: int| js[k] as int)
}

/// Whether a position is already taken.
fn contains_pos(js: &Vec<usize>, p: usize) -> (r: bool)
    ensures
        r == js_view(js@).contains(p as int),
{
    let mut k: usize = 0;
    while k < js.len()
        invariant
            k <= js@.len(),
            forall|q: int| 0 <= q < k ==> (#[trigger] js@[q]) != p,
        decreases js@.len() - k,
    {
        if js[k] == p {
            proof {
                assert(js_view(js@)[k as int] == p as int);
            }
            return true;
        }
        k = k + 1;
    }
    proof {
        if js_view(js@).contains(p as int) {
            let q = choose|q: int| 0 <= q < js_view(js@).len() && js_view(js@)[q] == p as int;
            assert(js@[q] == p);
        }
    }
    false
}

/// All intermediate products of the distance formula stay far inside
/// `i128`.
proof fn lemma_metric_bounds(la: int, lb: int, m: int, t2: int, l: int)
    requires
        1 <= la <= 1000000,
        1 <= lb <= 1000000,
        1 <= m <= 1000000,
        0 <= t2 <= 1000000,
        0 <= l <= 4,
    ensures
        1 <= 6 * la <= 6000000,
        1 <= 6 * la * lb <= 6000000000000,
        1 <= 6 * la * lb * m <= 6000000000000000000,
        0 <= 2 * m <= 2000000,
        0 <= 2 * m * m <= 2000000000000,
        0 <= 2 * m * m * lb <= 2000000000000000000,
        0 <= 2 * m * m * la <= 2000000000000000000,
        -2000000 <= 2 * m - t2 <= 2000000,
        -2000000000000 <= (2 * m - t2) * la <= 2000000000000,
        -2000000000000000000 <= (2 * m - t2) * la * lb <= 2000000000000000000,
        ({
            let d0 = 6 * la * lb * m;
            let n0 = d0 - 2 * m * m * lb - 2 * m * m * la - (2 * m - t2) * la * lb;
            -2600000000000000000000 <= 200 * n0 <= 2600000000000000000000
                && -26000000000000000000000000 <= 200 * n0 * (10 - l)
                <= 26000000000000000000000000
        }),
{
    assert(1 <= 6 * la <= 6000000 && 1 <= 6 * la * lb <= 6000000000000 && 1 <= 6 * la * lb * m
        <= 6000000000000000000 && 0 <= 2 * m <= 2000000 && 0 <= 2 * m * m <= 2000000000000 && 0
        <= 2 * m * m * lb <= 2000000000000000000 && 0 <= 2 * m * m * la <= 2000000000000000000
        && -2000000 <= 2 * m - t2 <= 2000000 && -2000000000000 <= (2 * m - t2) * la
        <= 2000000000000 && -2000000000000000000 <= (2 * m - t2) * la * lb
        <= 2000000000000000000) by (nonlinear_arith)
        requires
            1 <= la <= 1000000,
            1 <= lb <= 1000000,
            1 <= m <= 1000000,
            0 <= t2 <= 1000000,
    ;
    let d0 = 6 * la * lb * m;
    let n0 = d0 - 2 * m * m * lb - 2 * m * m * la - (2 * m - t2) * la * lb;
    assert(-2600000000000000000000 <= 200 * n0 <= 2600000000000000000000
        && -26000000000000000000000000 <= 200 * n0 * (10 - l)
        <= 26000000000000000000000000) by (nonlinear_arith)
        requires
            -13000000000000000000 <= n0 <= 13000000000000000000,
            0 <= l <= 4,
    ;
}

} // verus!

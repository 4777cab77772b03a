//! Menu lookup: exact by item number, fuzzy by name similarity.
//!
//! Free-text input that parses as an integer looks items up by their
//! menu number; anything else is ranked by how closely it matches the
//! item names, closest first, comparing the lowercased query against the
//! lowercased item names under the exact similarity metric.

use crate::models::{MenuId, MenuItem};
use crate::similarity::{distance_of, jw_distance};
use crate::state::{items_of_menu, Error, State};
use crate::text::{digits_val, is_digits, piece_ok};
use vstd::prelude::*;
use vstd::string::{StrSliceExecFns, StringExecFns};

verus! {

/// Lowercased form of a string, as `str::to_lowercase` computes it.
pub uninterp spec fn lower_of(s: Seq<char>) -> Seq<char>;

/// Relies on str::to_lowercase: the result depends on the characters
/// alone.
#[verifier::external_body]
fn lowercase(s: &str) -> (r: String)
    ensures
        r@ == lower_of(s@),
{
    s.to_lowercase()
}

/// A menu query: an item number, or free text to match against names.
#[derive(Debug)]
pub enum Query {
    ExactInteger(i32),
    FuzzyString(String),
}

/// The integer form of a string, if any: an optional sign and digits.
pub open spec fn int_form(s: Seq<char>) -> Option<int> {
    if s.len() > 0 && (s[0] == '-' || s[0] == '+') {
        if is_digits(s.drop_first()) {
            if s[0] == '-' {
                Some(-(digits_val(s.drop_first()) as int))
            } else {
                Some(digits_val(s.drop_first()) as int)
            }
        } else {
            None
        }
    } else {
        if is_digits(s) {
            Some(digits_val(s) as int)
        } else {
            None
        }
    }
}

impl Query {
    /// Interpret free text: a 32-bit integer becomes an exact lookup by
    /// item number, everything else a fuzzy name query.
    pub fn interpret_string(input: &str) -> (r: Query)
        ensures
            match r {
                Query::ExactInteger(n) => int_form(input@) == Some(n as int),
                Query::FuzzyString(f) => {
                    &&& f@ == input@
                    &&& (match int_form(input@) {
                        Some(v) => v < i32::MIN || v > i32::MAX,
                        None => true,
                    })
                },
            },
    {
        let len = input.unicode_len();
        let neg = len > 0 && input.get_char(0) == '-';
        let pos = len > 0 && input.get_char(0) == '+';
        let body = if neg || pos {
            input.substring_char(1, len)
        } else {
            input
        };
        proof {
            if neg || pos {
                assert(body@ =~= input@.drop_first());
            }
        }
        match crate::text::parse_digits(body) {
            Some(v) => {
                if neg {
                    if v <= 2147483648u64 {
                        proof {
                            assert(int_form(input@) == Some(-(v as int)));
                        }
                        return Query::ExactInteger((-(v as i64)) as i32);
                    }
                } else {
                    if v <= 2147483647u64 {
                        return Query::ExactInteger(v as i32);
                    }
                }
                Query::FuzzyString(input.to_owned())
            },
            None => {
                Query::FuzzyString(input.to_owned())
            },
        }
    }
}

/// A ranking of menu items for a fuzzy query: ascending distance between
/// the lowercased query and the lowercased item names.
pub open spec fn ranked_by(s: Seq<MenuItem>, q: Seq<char>) -> bool {
    forall|i: int, j: int|
        0 <= i < j < s.len() ==> distance_of(lower_of(q), lower_of((#[trigger] s[i]).name@))
            <= distance_of(lower_of(q), lower_of((#[trigger] s[j]).name@))
}

/// The position of a menu item within the menu's item list (meaningful
/// when the item occurs, which unique ids make unambiguous).
pub open spec fn pos_in_menu(ms: Seq<MenuItem>, x: MenuItem) -> int {
    choose|i: int| 0 <= i < ms.len() && ms[i] == x
}

/// Ties in the ranking keep the menu's own order: of two equally close
/// items, the one listed earlier in the menu comes first.
pub open spec fn stable_ties(s: Seq<MenuItem>, q: Seq<char>, ms: Seq<MenuItem>) -> bool {
    forall|i: int, j: int|
        0 <= i < j < s.len() && distance_of(lower_of(q), lower_of((#[trigger] s[i]).name@))
            == distance_of(lower_of(q), lower_of((#[trigger] s[j]).name@)) ==> pos_in_menu(
            ms,
            s[i],
        ) < pos_in_menu(ms, s[j])
}

/// With unique item ids, the items of a menu are pairwise distinct.
pub proof fn lemma_items_of_menu_distinct(s: Seq<MenuItem>, mid: MenuId)
    requires
        forall|a: int, b: int|
            0 <= a < b < s.len() ==> (#[trigger] s[a].id) != (#[trigger] s[b].id),
    ensures
        forall|a: int, b: int|
            0 <= a < b < items_of_menu(s, mid).len() ==> (#[trigger] items_of_menu(s, mid)[a])
                != (#[trigger] items_of_menu(s, mid)[b]),
    decreases s.len(),
{
    if s.len() > 0 {
        assert(forall|a: int, b: int|
            0 <= a < b < s.drop_last().len() ==> (#[trigger] s.drop_last()[a].id) != (
            #[trigger] s.drop_last()[b].id));
        lemma_items_of_menu_distinct(s.drop_last(), mid);
        crate::state::lemma_items_of_menu_sub(s.drop_last(), mid);
        let p = items_of_menu(s.drop_last(), mid);
        let l = items_of_menu(s, mid);
        assert forall|a: int, b: int| 0 <= a < b < l.len() implies (#[trigger] l[a]) != (
        #[trigger] l[b]) by {
            if b < p.len() {
                assert(l[a] == p[a] && l[b] == p[b]);
            } else {
                assert(l[b] == s.last());
                assert(l[a] == p[a]);
                assert(s.drop_last().contains(p[a]));
                let sa = choose|sa: int|
                    0 <= sa < s.drop_last().len() && s.drop_last()[sa] == p[a];
                assert(s[sa] == p[a]);
                assert(s[sa].id != s[s.len() - 1].id);
            }
        }
    }
}

/// What a free-text query must resolve to within a menu: an in-range
/// integer selects by item number, anything else ranks all items of the
/// menu by name similarity, closest first.
pub open spec fn resolved_items(
    st: State,
    menu_id: MenuId,
    input: Seq<char>,
    items: Seq<MenuItem>,
) -> bool {
    let f = int_form(input);
    if f is Some && i32::MIN <= f->Some_0 <= i32::MAX {
        items == items_numbered(st.menu_items@, menu_id, f->Some_0 as i32)
    } else {
        &&& items.to_multiset() == items_of_menu(st.menu_items@, menu_id).to_multiset()
        &&& ranked_by(items, input)
        &&& stable_ties(items, input, items_of_menu(st.menu_items@, menu_id))
    }
}

/// The items of a menu whose number equals `n`, in table order.
pub open spec fn items_numbered(s: Seq<MenuItem>, mid: MenuId, n: i32) -> Seq<MenuItem>
    decreases s.len(),
{
    if s.len() == 0 {
        Seq::empty()
    } else {
        let p = items_numbered(s.drop_last(), mid, n);
        if s.last().menu == mid && s.last().number == n {
            p.push(s.last())
        } else {
            p
        }
    }
}

/// The query has no hit in the menu.
pub open spec fn no_match(st: State, menu_id: MenuId, input: Seq<char>) -> bool {
    let f = int_form(input);
    if f is Some && i32::MIN <= f->Some_0 <= i32::MAX {
        items_numbered(st.menu_items@, menu_id, f->Some_0 as i32).len() == 0
    } else {
        items_of_menu(st.menu_items@, menu_id).len() == 0
    }
}

/// `item` is the query's best hit: the first numbered item for an
/// in-range integer, otherwise a menu item that no other item of the
/// menu beats in name similarity.
pub open spec fn best_match(st: State, menu_id: MenuId, input: Seq<char>, item: MenuItem) -> bool {
    let f = int_form(input);
    if f is Some && i32::MIN <= f->Some_0 <= i32::MAX {
        let hits = items_numbered(st.menu_items@, menu_id, f->Some_0 as i32);
        hits.len() > 0 && item == hits[0]
    } else {
        let mitems = items_of_menu(st.menu_items@, menu_id);
        &&& mitems.contains(item)
        &&& forall|i: int|
            0 <= i < mitems.len() ==> distance_of(lower_of(input), lower_of(item.name@))
                <= distance_of(lower_of(input), lower_of((#[trigger] mitems[i]).name@))
    }
}

/// Every numbered hit comes from the table, with that menu and number.
pub proof fn lemma_items_numbered_sub(s: Seq<MenuItem>, mid: MenuId, n: i32)
    ensures
        forall|i: int|
            0 <= i < items_numbered(s, mid, n).len() ==> s.contains(
                #[trigger] items_numbered(s, mid, n)[i],
            ) && items_numbered(s, mid, n)[i].menu == mid && items_numbered(s, mid, n)[i].number
                == n,
    decreases s.len(),
{
    if s.len() > 0 {
        lemma_items_numbered_sub(s.drop_last(), mid, n);
        let p = items_numbered(s.drop_last(), mid, n);
        let l = items_numbered(s, mid, n);
        assert forall|i: int| 0 <= i < l.len() implies s.contains(#[trigger] l[i]) && l[i].menu
            == mid && l[i].number == n by {
            if i < p.len() {
                assert(s.drop_last().contains(p[i]));
                let j = choose|j: int| 0 <= j < s.drop_last().len() && s.drop_last()[j] == p[i];
                assert(s[j] == p[i]);
            } else {
                assert(l[i] == s.last());
                assert(s[s.len() - 1] == s.last());
            }
        }
    }
}

impl State {
    /// Resolve a query within one menu.  An exact query returns every
    /// item with that number; a fuzzy query returns all items of the
    /// menu ranked by name similarity, closest first.
    pub fn query_menu(&self, menu_id: MenuId, query: &Query) -> (r: Result<Vec<MenuItem>, Error>)
        requires
            self.wf(),
        ensures
            match r {
                Ok(v) => match *query {
                    Query::ExactInteger(n) => v@ == items_numbered(self.menu_items@, menu_id, n),
                    Query::FuzzyString(ref q) => {
                        &&& v@.to_multiset() == items_of_menu(
                            self.menu_items@,
                            menu_id,
                        ).to_multiset()
                        &&& ranked_by(v@, q@)
                        &&& stable_ties(v@, q@, items_of_menu(self.menu_items@, menu_id))
                    },
                },
                Err(_) => false,
            },
    {
        match query {
            Query::ExactInteger(n) => {
                let nv: i32 = *n;
                let mut out: Vec<MenuItem> = Vec::new();
                let mut i: usize = 0;
                proof {
                    assert(self.menu_items@.subrange(0, 0) =~= Seq::<MenuItem>::empty());
                    assert(items_numbered(self.menu_items@.subrange(0, 0), menu_id, nv) =~= out@);
                }
                while i < self.menu_items.len()
                    invariant
                        i <= self.menu_items.len(),
                        out@ == items_numbered(
                            self.menu_items@.subrange(0, i as int),
                            menu_id,
                            nv,
                        ),
                    decreases self.menu_items.len() - i,
                {
                    let ghost pre = self.menu_items@.subrange(0, i as int);
                    let ghost post = self.menu_items@.subrange(0, i + 1);
                    proof {
                        assert(post.drop_last() =~= pre);
                        assert(post.last() == self.menu_items@[i as int]);
                    }
                    if self.menu_items[i].menu.0 == menu_id.0 && self.menu_items[i].number == nv {
                        out.push(self.menu_items[i].clone());
                    }
                    i = i + 1;
                }
                proof {
                    assert(self.menu_items@.subrange(0, self.menu_items.len() as int)
                        =~= self.menu_items@);
                }
                Ok(out)
            },
            Query::FuzzyString(q) => {
                let items = self.menu(menu_id);
                let lq = lowercase(q.as_str());
                let mut out: Vec<MenuItem> = Vec::new();
                let mut i: usize = 0;
                proof {
                    assert(items@.subrange(0, 0) =~= Seq::<MenuItem>::empty());
                    lemma_items_of_menu_distinct(self.menu_items@, menu_id);
                }
                while i < items.len()
                    invariant
                        i <= items.len(),
                        lq@ == lower_of(q@),
                        items@ == items_of_menu(self.menu_items@, menu_id),
                        forall|a: int, b: int|
                            0 <= a < b < items@.len() ==> (#[trigger] items@[a]) != (
                            #[trigger] items@[b]),
                        forall|k: int|
                            0 <= k < out@.len() ==> exists|p: int|
                                0 <= p < i && items@[p] == #[trigger] out@[k],
                        out@.to_multiset() == items@.subrange(0, i as int).to_multiset(),
                        ranked_by(out@, q@),
                        stable_ties(out@, q@, items@),
                    decreases items.len() - i,
                {
                    let ghost pre = items@.subrange(0, i as int);
                    let ghost post = items@.subrange(0, i + 1);
                    proof {
                        assert(post.drop_last() =~= pre);
                        assert(post.last() == items@[i as int]);
                    }
                    let x = items[i].clone();
                    let lx = lowercase(x.name.as_str());
                    let dx = jw_distance(lq.as_str(), lx.as_str());
                    let mut j: usize = 0;
                    loop
                        invariant_except_break
                            j <= out.len(),
                            lq@ == lower_of(q@),
                            ranked_by(out@, q@),
                            forall|k: int|
                                0 <= k < j ==> distance_of(
                                    lower_of(q@),
                                    lower_of((#[trigger] out@[k]).name@),
                                ) <= dx as int,
                        ensures
                            j <= out.len(),
                            forall|k: int|
                                0 <= k < j ==> distance_of(
                                    lower_of(q@),
                                    lower_of((#[trigger] out@[k]).name@),
                                ) <= dx as int,
                            j == out.len() || distance_of(
                                lower_of(q@),
                                lower_of(out@[j as int].name@),
                            ) > dx as int,
                        decreases out.len() - j,
                    {
                        if j == out.len() {
                            break ;
                        }
                        let lj = lowercase(out[j].name.as_str());
                        let dj = jw_distance(lq.as_str(), lj.as_str());
                        if dj > dx {
                            break ;
                        }
                        j = j + 1;
                    }
                    let ghost out0 = out@;
                    out.insert(j, x);
                    proof {
                        broadcast use vstd::seq_lib::group_to_multiset_ensures;

                        assert(x == items@[i as int]);
                        assert(post =~= pre.push(x));
                        vstd::seq_lib::to_multiset_insert(out0, j as int, x);
                        assert(pre.push(x).to_multiset() =~= pre.to_multiset().insert(x));
                        assert forall|a: int, b: int| 0 <= a < b < out.len() implies distance_of(
                            lower_of(q@),
                            lower_of((#[trigger] out@[a]).name@),
                        ) <= distance_of(lower_of(q@), lower_of((#[trigger] out@[b]).name@)) by {
                            if a < j && b == j as int {
                                assert(out@[a] == out0[a]);
                            } else if a == j as int && b > j {
                                assert(out@[b] == out0[b - 1]);
                            } else if a < j && b > j {
                                assert(out@[a] == out0[a]);
                                assert(out@[b] == out0[b - 1]);
                            } else if a != j as int && b != j as int {
                                if b < j {
                                    assert(out@[a] == out0[a]);
                                    assert(out@[b] == out0[b]);
                                } else {
                                    assert(out@[a] == out0[a - 1]);
                                    assert(out@[b] == out0[b - 1]);
                                }
                            }
                        }
                        // each element still comes from the processed prefix
                        assert forall|k: int| 0 <= k < out@.len() implies exists|p: int|
                            0 <= p < i + 1 && items@[p] == #[trigger] out@[k] by {
                            if k < j {
                                assert(out@[k] == out0[k]);
                                let p = choose|p: int| 0 <= p < i && items@[p] == out0[k];
                                assert(0 <= p < i + 1 && items@[p] == out@[k]);
                            } else if k == j as int {
                                assert(items@[i as int] == out@[k]);
                            } else {
                                assert(out@[k] == out0[k - 1]);
                                let p = choose|p: int| 0 <= p < i && items@[p] == out0[k - 1];
                                assert(0 <= p < i + 1 && items@[p] == out@[k]);
                            }
                        }
                        // ties keep the menu order: everything already
                        // placed comes from earlier menu positions, and
                        // nothing after the insertion point ties with it
                        assert(pos_in_menu(items@, x) == i as int) by {
                            assert(items@[i as int] == x);
                            let c = choose|c: int| 0 <= c < items@.len() && items@[c] == x;
                            if c != i as int {
                                assert(false);
                            }
                        };
                        assert forall|a: int, b: int|
                            0 <= a < b < out@.len() && distance_of(
                                lower_of(q@),
                                lower_of((#[trigger] out@[a]).name@),
                            ) == distance_of(
                                lower_of(q@),
                                lower_of((#[trigger] out@[b]).name@),
                            ) implies pos_in_menu(items@, out@[a]) < pos_in_menu(
                            items@,
                            out@[b],
                        ) by {
                            if a < j && b == j as int {
                                assert(out@[a] == out0[a]);
                                let p = choose|p: int| 0 <= p < i && items@[p] == out0[a];
                                assert(pos_in_menu(items@, out0[a]) == p) by {
                                    let c = choose|c: int|
                                        0 <= c < items@.len() && items@[c] == out0[a];
                                    if c != p {
                                        assert(false);
                                    }
                                };
                            } else if a == j as int && b > j {
                                // strictly farther entries follow the
                                // insertion point, so no tie arises
                                assert(out@[b] == out0[b - 1]);
                                if b - 1 > j {
                                    assert(distance_of(
                                        lower_of(q@),
                                        lower_of(out0[j as int].name@),
                                    ) <= distance_of(
                                        lower_of(q@),
                                        lower_of(out0[b - 1].name@),
                                    ));
                                }
                                assert(false);
                            } else if a < j && b > j {
                                assert(out@[a] == out0[a]);
                                assert(out@[b] == out0[b - 1]);
                            } else {
                                if b < j {
                                    assert(out@[a] == out0[a]);
                                    assert(out@[b] == out0[b]);
                                } else {
                                    assert(out@[a] == out0[a - 1]);
                                    assert(out@[b] == out0[b - 1]);
                                }
                            }
                        }
                    }
                    i = i + 1;
                }
                proof {
                    assert(items@.subrange(0, items.len() as int) =~= items@);
                }
                Ok(out)
            },
        }
    }
}

} // verus!

//! Turning an open order into exact per-account debits.
//!
//! The bill groups the sorted order lines by person, splits the order's
//! overhead evenly across the persons, and charges each person's account;
//! two persons billing the same account are summed into one entry.  The
//! defining invariant, proved on the result: the values of the bill sum
//! exactly to the total item price plus the overhead — no rounding, no
//! lost cents.  A missing account mapping fails the whole computation;
//! no partial bill is ever returned.

use crate::arith::{reduced_den, reduced_num};
use crate::models::{MenuItem, Order, OrderItem};
use crate::rational::lemma_eq_frac_is_reduced;
use crate::rational::Rational;
use crate::state::{lemma_joined_pairs, lines_of_order, pair_price_sum, State};
use crate::strorder::{lemma_lex_refl, lex_le, str_eq};
use vstd::prelude::*;
use vstd::string::StringExecFns;

verus! {

/// A failed command-layer computation.
#[derive(Debug)]
pub enum Error {
    /// A state operation failed; carried unchanged.
    StateError(crate::state::Error),
    /// Malformed free-text input.
    InputError,
    /// The named person has no billing account.
    MissingAssociation(String),
    /// A referenced row does not exist.
    NotFound,
    /// A required configuration entry is absent.
    MissingConfig(String),
    /// A required argument is absent.
    MissingArgument(String),
    /// An overhead split over zero participants.
    DivisionByZero,
    /// An amount beyond the machine representation of exact fractions.
    AmountOutOfRange,
    /// The ledger answered with an unexpected HTTP status.
    UnexpectedStatus(u16),
    /// The ledger could not be reached.
    LedgerTransport,
}

/// Unreduced sum of two fractions.
pub open spec fn frac_add_p(a: (int, int), b: (int, int)) -> (int, int) {
    (a.0 * b.1 + b.0 * a.1, a.1 * b.1)
}

/// The value of a bill: the fraction sum of its entries.
pub open spec fn bill_sum(s: Seq<(String, Rational)>) -> (int, int)
    decreases s.len(),
{
    if s.len() == 0 {
        (0int, 1int)
    } else {
        frac_add_p(bill_sum(s.drop_last()), (s.last().1.num as int, s.last().1.den as int))
    }
}

/// The persons that placed lines of an order.
pub open spec fn order_persons(lines: Seq<OrderItem>) -> Set<Seq<char>> {
    Set::new(
        |p: Seq<char>| exists|i: int| 0 <= i < lines.len() && (#[trigger] lines[i]).person_name@ == p,
    )
}

/// The single open order (meaningful when one exists).
pub open spec fn the_open_order(st: State) -> Order {
    st.orders@[choose|i: int| st.open_order_at(i)]
}

/// The lines of the open order.
pub open spec fn order_lines(st: State) -> Seq<OrderItem> {
    lines_of_order(st.order_items@, the_open_order(st).id)
}

/// Total price of the open order's lines, in cents.
pub open spec fn order_total_cents(st: State) -> int {
    pair_price_sum(st.joined(the_open_order(st).id))
}

/// Every person of the open order has a billing account.
pub open spec fn assoc_complete(st: State) -> bool {
    forall|p: Seq<char>|
        order_persons(order_lines(st)).contains(p) ==> (#[trigger] st.assoc_of(p)) is Some
}

/// The machine limits of the bill computation: at most a million lines,
/// prices and overhead within ten thousand monetary units.
pub open spec fn within_limits(st: State) -> bool {
    &&& st.joined(the_open_order(st).id).len() <= 1000000
    &&& forall|i: int|
        0 <= i < st.joined(the_open_order(st).id).len() ==> -1000000 <= (#[trigger] st.joined(
            the_open_order(st).id,
        )[i]).0.price_in_cents <= 1000000
    &&& -1000000 <= the_open_order(st).overhead_in_cents <= 1000000
}

/// The key is the billing account of some person of the open order.
pub open spec fn key_is_billed_account(st: State, key: Seq<char>) -> bool {
    exists|p: Seq<char>|
        order_persons(order_lines(st)).contains(p) && (#[trigger] st.assoc_of(p)) == Some(key)
}

/// Whether some line of `s` was placed by person `p`.
pub open spec fn person_in_pairs(s: Seq<(MenuItem, OrderItem)>, p: Seq<char>) -> bool {
    exists|i: int| 0 <= i < s.len() && (#[trigger] s[i]).1.person_name@ == p
}

/// The number of distinct persons among the lines, counted at each
/// person's first line.
pub open spec fn pairs_distinct_persons(s: Seq<(MenuItem, OrderItem)>) -> int
    decreases s.len(),
{
    if s.len() == 0 {
        0
    } else {
        pairs_distinct_persons(s.drop_last()) + (if person_in_pairs(
            s.drop_last(),
            s.last().1.person_name@,
        ) {
            0int
        } else {
            1int
        })
    }
}

/// Total cents of the lines whose person bills to account `a`.
pub open spec fn account_cents(st: State, s: Seq<(MenuItem, OrderItem)>, a: Seq<char>) -> int
    decreases s.len(),
{
    if s.len() == 0 {
        0
    } else {
        account_cents(st, s.drop_last(), a) + (if st.assoc_of(s.last().1.person_name@) == Some(
            a,
        ) {
            s.last().0.price_in_cents as int
        } else {
            0int
        })
    }
}

/// The number of distinct persons billing to account `a`.
pub open spec fn account_persons(st: State, s: Seq<(MenuItem, OrderItem)>, a: Seq<char>) -> int
    decreases s.len(),
{
    if s.len() == 0 {
        0
    } else {
        account_persons(st, s.drop_last(), a) + (if st.assoc_of(s.last().1.person_name@)
            == Some(a) && !person_in_pairs(s.drop_last(), s.last().1.person_name@) {
            1int
        } else {
            0int
        })
    }
}

/// The billed accounts in order of first appearance among the lines.
pub open spec fn account_keys(st: State, s: Seq<(MenuItem, OrderItem)>) -> Seq<Seq<char>>
    decreases s.len(),
{
    if s.len() == 0 {
        Seq::empty()
    } else {
        let p = account_keys(st, s.drop_last());
        match st.assoc_of(s.last().1.person_name@) {
            Some(a) => if p.contains(a) {
                p
            } else {
                p.push(a)
            },
            None => p,
        }
    }
}

/// An account with no key has no cents and no persons.
proof fn lemma_unseen_account_empty(st: State, s: Seq<(MenuItem, OrderItem)>, a: Seq<char>)
    requires
        !account_keys(st, s).contains(a),
    ensures
        account_cents(st, s, a) == 0,
        account_persons(st, s, a) == 0,
    decreases s.len(),
{
    if s.len() > 0 {
        let p = account_keys(st, s.drop_last());
        assert(!p.contains(a)) by {
            if p.contains(a) {
                let e = choose|e: int| 0 <= e < p.len() && p[e] == a;
                match st.assoc_of(s.last().1.person_name@) {
                    Some(b) => {
                        if p.contains(b) {
                            assert(account_keys(st, s)[e] == a);
                        } else {
                            assert(account_keys(st, s)[e] == a);
                        }
                    },
                    None => {
                        assert(account_keys(st, s)[e] == a);
                    },
                }
            }
        };
        lemma_unseen_account_empty(st, s.drop_last(), a);
        if st.assoc_of(s.last().1.person_name@) == Some(a) {
            assert(account_keys(st, s).contains(a)) by {
                if !p.contains(a) {
                    assert(account_keys(st, s).last() == a);
                }
            };
            assert(false);
        }
    }
}

/// A person's account always has a key.
proof fn lemma_person_account_key(st: State, s: Seq<(MenuItem, OrderItem)>, p: Seq<char>, a: Seq<char>)
    requires
        person_in_pairs(s, p),
        st.assoc_of(p) == Some(a),
    ensures
        account_keys(st, s).contains(a),
    decreases s.len(),
{
    if s.len() > 0 {
        let ks = account_keys(st, s);
        let kp = account_keys(st, s.drop_last());
        assert(forall|e: int| 0 <= e < kp.len() ==> (#[trigger] ks[e]) == kp[e]);
        if s.last().1.person_name@ == p {
            if kp.contains(a) {
                let e = choose|e: int| 0 <= e < kp.len() && kp[e] == a;
                assert(ks[e] == a);
            } else {
                assert(ks.last() == a);
            }
        } else {
            assert(person_in_pairs(s.drop_last(), p)) by {
                let i = choose|i: int|
                    0 <= i < s.len() && (#[trigger] s[i]).1.person_name@ == p;
                assert(s.drop_last()[i] == s[i]);
            };
            lemma_person_account_key(st, s.drop_last(), p, a);
            let e = choose|e: int| 0 <= e < kp.len() && kp[e] == a;
            assert(ks[e] == a);
        }
    }
}

/// The whole bill of a state with an open order: one entry per billed
/// account, in order of first appearance, each holding the exact value
/// `(K*C + O*M) / (100*K)` for that account's cents `C` and persons `M`,
/// with `K` distinct persons and overhead `O`; the values sum to the
/// total item price plus the overhead over one hundred, exactly.
pub open spec fn bill_spec(st: State, bill: Seq<(String, Rational)>) -> bool {
    let jd = st.joined(the_open_order(st).id);
    let kk = pairs_distinct_persons(jd);
    let ov = the_open_order(st).overhead_in_cents as int;
    &&& bill.len() == account_keys(st, jd).len()
    &&& forall|i: int|
        0 <= i < bill.len() ==> (#[trigger] bill[i]).0@ == account_keys(st, jd)[i]
    &&& forall|i: int| 0 <= i < bill.len() ==> (#[trigger] bill[i]).1.wf()
    &&& forall|i: int|
        0 <= i < bill.len() ==> (#[trigger] bill[i]).1.eq_frac(
            kk * account_cents(st, jd, bill[i].0@) + ov * account_persons(st, jd, bill[i].0@),
            100 * kk,
        )
    &&& forall|i: int, j: int|
        0 <= i < j < bill.len() ==> (#[trigger] bill[i]).0@ != (#[trigger] bill[j]).0@
    &&& forall|i: int|
        0 <= i < bill.len() ==> key_is_billed_account(st, (#[trigger] bill[i]).0@)
    &&& forall|p: Seq<char>|
        order_persons(order_lines(st)).contains(p) ==> exists|i: int|
            0 <= i < bill.len() && st.assoc_of(p) == Some((#[trigger] bill[i]).0@)
    &&& crate::arith::frac_eq(
        bill_sum(bill).0,
        bill_sum(bill).1,
        order_total_cents(st) + ov,
        100,
    )
}

/// An order known open is the open order.
pub proof fn lemma_open_unique(st: State, o: Order)
    requires
        st.wf(),
        st.orders@.contains(o),
        o.closed is None,
    ensures
        st.has_open_order(),
        the_open_order(st) == o,
{
    let i = choose|i: int| 0 <= i < st.orders@.len() && st.orders@[i] == o;
    assert(st.open_order_at(i));
    let c = choose|c: int| st.open_order_at(c);
    if c != i {
        assert(!(st.orders@[i].closed is None && st.orders@[c].closed is None)) by {
            if i < c {
                assert(st.single_open());
            } else {
                assert(st.single_open());
            }
        };
        assert(false);
    }
}

/// Sums of the per-account accumulator: total cents and total persons.
pub open spec fn acc_cents(s: Seq<(String, i64, i64)>) -> int
    decreases s.len(),
{
    if s.len() == 0 {
        0
    } else {
        acc_cents(s.drop_last()) + s.last().1
    }
}

pub open spec fn acc_persons(s: Seq<(String, i64, i64)>) -> int
    decreases s.len(),
{
    if s.len() == 0 {
        0
    } else {
        acc_persons(s.drop_last()) + s.last().2
    }
}

/// Adding a fraction with the common denominator to a running sum.
pub proof fn lemma_frac_add_common(sn: int, sd: int, xn: int, xd: int, a: int, b: int, d: int)
    requires
        sn * d == a * sd,
        xn * d == b * xd,
    ensures
        (sn * xd + xn * sd) * d == (a + b) * (sd * xd),
{
    assert(sn * xd * d == a * sd * xd) by (nonlinear_arith)
        requires
            sn * d == a * sd,
    ;
    assert(xn * sd * d == b * xd * sd) by (nonlinear_arith)
        requires
            xn * d == b * xd,
    ;
    assert((sn * xd + xn * sd) * d == sn * xd * d + xn * sd * d) by (nonlinear_arith);
    assert((a + b) * (sd * xd) == a * sd * xd + b * xd * sd) by (nonlinear_arith);
}

/// Look up the billing account of a chat name.
pub fn assoc_lookup(state: &State, name: &str) -> (r: Option<String>)
    requires
        state.wf(),
    ensures
        match r {
            Some(a) => state.assoc_of(name@) == Some(a@),
            None => state.assoc_of(name@) is None,
        },
{
    let mut i: usize = 0;
    while i < state.associations.len()
        invariant
            state.wf(),
            i <= state.associations.len(),
            forall|j: int|
                0 <= j < i ==> (#[trigger] state.associations[j].slack_name)@ != name@,
        decreases state.associations.len() - i,
    {
        if str_eq(state.associations[i].slack_name.as_str(), name) {
            let a = state.associations[i].sharebill_account.clone();
            proof {
                let c = choose|c: int|
                    0 <= c < state.associations.len() && (
                    #[trigger] state.associations[c]).slack_name@ == name@;
                if c != i as int {
                    assert(false);
                }
            }
            return Some(a);
        }
        i = i + 1;
    }
    proof {
        if state.assoc_of(name@) is Some {
            let c = choose|c: int|
                0 <= c < state.associations.len() && (
                #[trigger] state.associations[c]).slack_name@ == name@;
        }
    }
    None
}

/// Compute the bill of the open order: one exact debit per account.
///
/// Grouping follows the person-sorted line order; the overhead is split
/// evenly over the distinct persons; persons sharing an account are
/// summed.  The sum of all values equals the total item price plus the
/// overhead, exactly.  An order with no lines is a division error; a
/// person without an account fails the whole bill, naming the first such
/// person in name order.
pub fn generate_bill(state: &State) -> (r: Result<Vec<(String, Rational)>, Error>)
    requires
        state.wf(),
    ensures
        match r {
            Ok(bill) => {
                &&& state.has_open_order()
                &&& state.joined(the_open_order(*state).id).len() > 0
                &&& assoc_complete(*state)
                &&& within_limits(*state)
                &&& bill_spec(*state, bill@)
            },
            Err(Error::StateError(e)) => {
                &&& e == crate::state::Error::NoOpenOrder
                &&& !state.has_open_order()
            },
            Err(Error::DivisionByZero) => {
                &&& state.has_open_order()
                &&& state.joined(the_open_order(*state).id).len() == 0
            },
            Err(Error::MissingAssociation(p)) => {
                &&& state.has_open_order()
                &&& state.joined(the_open_order(*state).id).len() > 0
                &&& order_persons(order_lines(*state)).contains(p@)
                &&& state.assoc_of(p@) is None
                &&& forall|q: Seq<char>|
                    order_persons(order_lines(*state)).contains(q) && (#[trigger] state.assoc_of(
                        q,
                    )) is None ==> lex_le(p@, q)
            },
            Err(Error::AmountOutOfRange) => {
                &&& state.has_open_order()
                &&& state.joined(the_open_order(*state).id).len() > 0
                &&& assoc_complete(*state)
                &&& !within_limits(*state)
            },
            Err(_) => false,
        },
{
    broadcast use vstd::seq_lib::group_to_multiset_ensures;

    let open_order = match state.demand_open_order() {
        Ok(o) => o,
        Err(e) => {
            return Err(Error::StateError(e));
        },
    };
    proof {
        lemma_open_unique(*state, open_order);
    }
    let items = match state.items_in_order(open_order.id) {
        Ok(v) => v,
        Err(_) => {
            proof {
                assert(false);
            }
            return Err(Error::NotFound);
        },
    };
    let ghost joined = state.joined(open_order.id);
    let ghost lines = order_lines(*state);
    proof {
        assert(items@.len() == joined.len()) by {
            assert(items@.to_multiset().len() == items@.len());
            assert(joined.to_multiset().len() == joined.len());
        };
        lemma_joined_pairs(*state, lines);
    }
    let n = items.len();
    if n == 0 {
        return Err(Error::DivisionByZero);
    }
    // every person must have an account; report the first hole
    let mut i: usize = 0;
    while i < n
        invariant
            state.wf(),
            state.has_open_order(),
            i <= n,
            1 <= n == items@.len(),
            joined.len() == n,
            joined == state.joined(open_order.id),
            lines == order_lines(*state),
            the_open_order(*state) == open_order,
            items@.to_multiset() == joined.to_multiset(),
            crate::state::sorted_pairs(items@),
            forall|j: int|
                0 <= j < i ==> (#[trigger] state.assoc_of(items@[j].1.person_name@)) is Some,
        decreases n - i,
    {
        match assoc_lookup(state, items[i].1.person_name.as_str()) {
            Some(_) => {},
            None => {
                let p = items[i].1.person_name.clone();
                proof {
                    broadcast use vstd::seq_lib::group_to_multiset_ensures;

                    lemma_joined_pairs(*state, lines);
                    // the person is one of the order's persons
                    assert(items@.contains(items@[i as int]));
                    assert(items@.to_multiset().count(items@[i as int]) > 0);
                    assert(joined.to_multiset().count(items@[i as int]) > 0);
                    assert(joined.contains(items@[i as int]));
                    let jk = choose|jk: int|
                        0 <= jk < joined.len() && joined[jk] == items@[i as int];
                    assert(joined[jk].1 == lines[jk]);
                    assert(order_persons(lines).contains(p@));
                    // and any unmapped person comes at or after position i
                    assert forall|q: Seq<char>|
                        order_persons(lines).contains(q) && (#[trigger] state.assoc_of(
                            q,
                        )) is None implies lex_le(p@, q) by {
                        let lk = choose|lk: int|
                            0 <= lk < lines.len() && (#[trigger] lines[lk]).person_name@ == q;
                        assert(joined[lk].1 == lines[lk]);
                        assert(joined.contains(joined[lk]));
                        assert(joined.to_multiset().count(joined[lk]) > 0);
                        assert(items@.to_multiset().count(joined[lk]) > 0);
                        assert(items@.contains(joined[lk]));
                        let ik = choose|ik: int|
                            0 <= ik < items@.len() && items@[ik] == joined[lk];
                        if ik < i as int {
                            assert(state.assoc_of(items@[ik].1.person_name@) is Some);
                            assert(false);
                        } else if ik > i as int {
                            assert(crate::state::pair_le(items@[i as int], items@[ik]));
                            lemma_lex_refl(p@);
                        } else {
                            lemma_lex_refl(p@);
                        }
                    }
                }
                return Err(Error::MissingAssociation(p));
            },
        }
        i = i + 1;
    }
    proof {
        broadcast use vstd::seq_lib::group_to_multiset_ensures;

        lemma_joined_pairs(*state, lines);
        assert forall|p: Seq<char>|
            order_persons(lines).contains(p) implies (#[trigger] state.assoc_of(p)) is Some by {
            let lk = choose|lk: int|
                0 <= lk < lines.len() && (#[trigger] lines[lk]).person_name@ == p;
            assert(joined[lk].1 == lines[lk]);
            assert(joined.contains(joined[lk]));
            assert(joined.to_multiset().count(joined[lk]) > 0);
            assert(items@.to_multiset().count(joined[lk]) > 0);
            assert(items@.contains(joined[lk]));
            let ik = choose|ik: int| 0 <= ik < items@.len() && items@[ik] == joined[lk];
            assert(state.assoc_of(items@[ik].1.person_name@) is Some);
        }
        assert(assoc_complete(*state));
    }
    // machine limits on sizes and amounts
    if n > 1000000 {
        return Err(Error::AmountOutOfRange);
    }
    let overhead: i32 = open_order.overhead_in_cents;
    if overhead > 1000000 || overhead < -1000000 {
        return Err(Error::AmountOutOfRange);
    }
    let mut i: usize = 0;
    while i < n
        invariant
            state.wf(),
            state.has_open_order(),
            i <= n,
            1 <= n == items@.len(),
            joined.len() == n,
            joined == state.joined(open_order.id),
            the_open_order(*state) == open_order,
            items@.to_multiset() == joined.to_multiset(),
            assoc_complete(*state),
            forall|j: int|
                0 <= j < i ==> -1000000 <= (#[trigger] items@[j]).0.price_in_cents <= 1000000,
        decreases n - i,
    {
        let p = items[i].0.price_in_cents;
        if p > 1000000 || p < -1000000 {
            proof {
                broadcast use vstd::seq_lib::group_to_multiset_ensures;

                assert(items@.contains(items@[i as int]));
                assert(items@.to_multiset().count(items@[i as int]) > 0);
                assert(joined.to_multiset().count(items@[i as int]) > 0);
                assert(joined.contains(items@[i as int]));
                let jk = choose|jk: int| 0 <= jk < joined.len() && joined[jk] == items@[i as int];
                assert(!within_limits(*state));
            }
            return Err(Error::AmountOutOfRange);
        }
        i = i + 1;
    }
    proof {
        broadcast use vstd::seq_lib::group_to_multiset_ensures;

        assert forall|k: int|
            0 <= k < joined.len() implies -1000000 <= (#[trigger] joined[k]).0.price_in_cents
            <= 1000000 by {
            assert(joined.contains(joined[k]));
            assert(joined.to_multiset().count(joined[k]) > 0);
            assert(items@.to_multiset().count(joined[k]) > 0);
            assert(items@.contains(joined[k]));
            let ik = choose|ik: int| 0 <= ik < items@.len() && items@[ik] == joined[k];
        }
        assert(within_limits(*state));
    }
    // rebuild the lines in table order: the per-account quantities are
    // defined over them
    let mut pairs: Vec<(MenuItem, OrderItem)> = Vec::new();
    let mut t: usize = 0;
    proof {
        assert(state.order_items@.subrange(0, 0) =~= Seq::<OrderItem>::empty());
        assert(state.joined_lines(
            crate::state::lines_of_order(state.order_items@.subrange(0, 0), open_order.id),
        ) =~= pairs@);
    }
    while t < state.order_items.len()
        invariant
            state.wf(),
            t <= state.order_items.len(),
            pairs@ == state.joined_lines(
                crate::state::lines_of_order(
                    state.order_items@.subrange(0, t as int),
                    open_order.id,
                ),
            ),
        decreases state.order_items.len() - t,
    {
        let ghost lpre = state.order_items@.subrange(0, t as int);
        let ghost lpost = state.order_items@.subrange(0, t + 1);
        proof {
            assert(lpost.drop_last() =~= lpre);
            assert(lpost.last() == state.order_items@[t as int]);
        }
        let line = &state.order_items[t];
        if line.order.0 == open_order.id.0 {
            proof {
                assert(state.item_ref_ok(state.order_items@[t as int]));
                let (oj, mj) = choose|oj: int, mj: int|
                    {
                        &&& 0 <= oj < state.orders.len()
                        &&& 0 <= mj < state.menu_items.len()
                        &&& (#[trigger] state.orders[oj]).id == state.order_items@[
                            t as int].order
                        &&& (#[trigger] state.menu_items[mj]).id == state.order_items@[
                            t as int].menu_item
                        &&& state.menu_items[mj].menu == state.orders[oj].menu
                    };
                assert(state.menu_items[mj].id == state.order_items@[t as int].menu_item);
            }
            match state.find_menu_item(state.order_items[t].menu_item) {
                Some(m) => {
                    pairs.push((m, state.order_items[t].clone()));
                    proof {
                        assert(crate::state::lines_of_order(lpost, open_order.id)
                            == crate::state::lines_of_order(lpre, open_order.id).push(
                            state.order_items@[t as int],
                        ));
                        let lp = crate::state::lines_of_order(lpre, open_order.id).push(
                            state.order_items@[t as int],
                        );
                        assert(lp.drop_last() =~= crate::state::lines_of_order(
                            lpre,
                            open_order.id,
                        ));
                    }
                },
                None => {
                    return Err(Error::NotFound);
                },
            }
        } else {
            proof {
                assert(crate::state::lines_of_order(lpost, open_order.id)
                    == crate::state::lines_of_order(lpre, open_order.id));
            }
        }
        t = t + 1;
    }
    proof {
        assert(state.order_items@.subrange(0, state.order_items.len() as int)
            =~= state.order_items@);
        assert(pairs@ == joined);
        // every line's person has an account
        lemma_joined_pairs(*state, lines);
        assert forall|j: int|
            0 <= j < joined.len() implies (#[trigger] state.assoc_of(
            joined[j].1.person_name@,
        )) is Some by {
            assert(joined[j].1 == lines[j]);
            assert(order_persons(lines).contains(lines[j].person_name@));
        }
    }
    // accumulate cents and distinct-person counts per account, counting
    // each person at their first line
    let mut acc: Vec<(String, i64, i64)> = Vec::new();
    let mut k_groups: i64 = 0;
    let mut j: usize = 0;
    proof {
        assert(joined.subrange(0, 0) =~= Seq::<(MenuItem, OrderItem)>::empty());
    }
    while j < n
        invariant
            state.wf(),
            state.has_open_order(),
            j <= n,
            1 <= n,
            joined.len() == n,
            n <= 1000000,
            pairs@ == joined,
            joined == state.joined(open_order.id),
            lines == order_lines(*state),
            the_open_order(*state) == open_order,
            forall|q: int|
                0 <= q < n ==> -1000000 <= (#[trigger] joined[q]).0.price_in_cents <= 1000000,
            forall|q: int|
                0 <= q < n ==> (#[trigger] state.assoc_of(joined[q].1.person_name@)) is Some,
            0 <= k_groups <= j,
            k_groups as int == pairs_distinct_persons(joined.subrange(0, j as int)),
            acc@.len() == account_keys(*state, joined.subrange(0, j as int)).len(),
            forall|e: int|
                0 <= e < acc@.len() ==> (#[trigger] acc@[e]).0@ == account_keys(
                    *state,
                    joined.subrange(0, j as int),
                )[e],
            forall|e: int|
                0 <= e < acc@.len() ==> (#[trigger] acc@[e]).1 == account_cents(
                    *state,
                    joined.subrange(0, j as int),
                    acc@[e].0@,
                ),
            forall|e: int|
                0 <= e < acc@.len() ==> (#[trigger] acc@[e]).2 == account_persons(
                    *state,
                    joined.subrange(0, j as int),
                    acc@[e].0@,
                ),
            acc_cents(acc@) == pair_price_sum(joined.subrange(0, j as int)),
            acc_persons(acc@) == k_groups,
            j > 0 ==> k_groups >= 1,
            forall|a: int, b: int|
                0 <= a < b < acc@.len() ==> (#[trigger] acc@[a]).0@ != (#[trigger] acc@[b]).0@,
            forall|a: int|
                0 <= a < acc@.len() ==> key_is_billed_account(*state, (#[trigger] acc@[a]).0@),
            forall|a: int|
                0 <= a < acc@.len() ==> -1000000 * (j as int) <= (#[trigger] acc@[a]).1
                    <= 1000000 * (j as int),
            forall|a: int| 0 <= a < acc@.len() ==> 0 <= (#[trigger] acc@[a]).2 <= k_groups,
        decreases n - j,
    {
        let ghost pre = joined.subrange(0, j as int);
        let ghost post = joined.subrange(0, j + 1);
        proof {
            assert(post.drop_last() =~= pre);
            assert(post.last() == joined[j as int]);
        }
        let person = pairs[j].1.person_name.clone();
        let price: i64 = pairs[j].0.price_in_cents as i64;
        // has this person a line before this one?
        let mut seen = false;
        let mut u: usize = 0;
        while u < j && !seen
            invariant
                u <= j,
                j < n,
                n == pairs@.len(),
                pairs@ == joined,
                person@ == joined[j as int].1.person_name@,
                pre == joined.subrange(0, j as int),
                seen ==> person_in_pairs(pre, person@),
                !seen ==> forall|v: int|
                    0 <= v < u ==> (#[trigger] pre[v]).1.person_name@ != person@,
            decreases j - u, (if seen { 0int } else { 1int }),
        {
            if str_eq(pairs[u].1.person_name.as_str(), person.as_str()) {
                proof {
                    assert(pre[u as int].1.person_name@ == person@);
                }
                seen = true;
            } else {
                u = u + 1;
            }
        }
        let first = !seen;
        proof {
            if first {
                if person_in_pairs(pre, person@) {
                    let v = choose|v: int|
                        0 <= v < pre.len() && (#[trigger] pre[v]).1.person_name@ == person@;
                    assert(false);
                }
            }
            assert(first == !person_in_pairs(pre, person@));
        }
        let account = match assoc_lookup(state, person.as_str()) {
            Some(a) => a,
            None => {
                proof {
                    assert(state.assoc_of(joined[j as int].1.person_name@) is Some);
                    assert(false);
                }
                return Err(Error::NotFound);
            },
        };
        proof {
            lemma_joined_pairs(*state, lines);
            assert(joined[j as int].1 == lines[j as int]);
            assert(order_persons(lines).contains(person@));
            assert(key_is_billed_account(*state, account@));
            // the step of each per-account quantity
            assert(pairs_distinct_persons(post) == pairs_distinct_persons(pre) + (if first {
                1int
            } else {
                0int
            }));
        }
        let ghost acc0 = acc@;
        let ghost keys_pre = account_keys(*state, pre);
        let ghost keys_post = account_keys(*state, post);
        let mut found: Option<usize> = None;
        let mut a: usize = 0;
        while a < acc.len() && found.is_none()
            invariant
                a <= acc@.len(),
                match found {
                    Some(f) => f < acc@.len() && acc@[f as int].0@ == account@,
                    None => forall|b: int| 0 <= b < a ==> (#[trigger] acc@[b]).0@ != account@,
                },
            decreases acc@.len() - a,
        {
            if str_eq(acc[a].0.as_str(), account.as_str()) {
                found = Some(a);
            }
            a = a + 1;
        }
        let dm: i64 = if first {
            1
        } else {
            0
        };
        match found {
            Some(f) => {
                proof {
                    assert(keys_pre.contains(account@)) by {
                        assert(keys_pre[f as int] == acc0[f as int].0@);
                    };
                    assert(keys_post == keys_pre);
                }
                let entry_s = acc[f].1;
                let entry_m = acc[f].2;
                let name = acc[f].0.clone();
                acc.set(f, (name, entry_s + price, entry_m + dm));
                proof {
                    lemma_acc_sums_update(acc0, acc@, f as int, price as int, dm as int);
                    assert forall|e: int| 0 <= e < acc@.len() implies ((#[trigger] acc@[e]).0@
                        == keys_post[e] && acc@[e].1 == account_cents(*state, post, acc@[e].0@)
                        && acc@[e].2 == account_persons(*state, post, acc@[e].0@)) by {
                        if e == f as int {
                            assert(acc@[e].0@ == account@);
                        } else {
                            assert(acc@[e] == acc0[e]);
                            assert(acc@[e].0@ != account@);
                        }
                    }
                    assert forall|b: int| 0 <= b < acc@.len() implies key_is_billed_account(
                        *state,
                        (#[trigger] acc@[b]).0@,
                    ) by {
                        if b != f as int {
                            assert(acc@[b] == acc0[b]);
                        } else {
                            assert(acc@[b].0@ == acc0[b].0@);
                        }
                    }
                }
            },
            None => {
                proof {
                    assert(!keys_pre.contains(account@)) by {
                        if keys_pre.contains(account@) {
                            let e = choose|e: int|
                                0 <= e < keys_pre.len() && keys_pre[e] == account@;
                            assert(acc0[e].0@ == account@);
                        }
                    };
                    assert(keys_post == keys_pre.push(account@));
                    lemma_unseen_account_empty(*state, pre, account@);
                    // a repeated person would already have a key
                    if !first {
                        lemma_person_account_key(*state, pre, person@, account@);
                        assert(false);
                    }
                }
                acc.push((account, price, 1));
                proof {
                    assert(acc@.drop_last() =~= acc0);
                    assert forall|e: int| 0 <= e < acc@.len() implies ((#[trigger] acc@[e]).0@
                        == keys_post[e] && acc@[e].1 == account_cents(*state, post, acc@[e].0@)
                        && acc@[e].2 == account_persons(*state, post, acc@[e].0@)) by {
                        if e < acc@.len() - 1 {
                            assert(acc@[e] == acc0[e]);
                            assert(acc@[e].0@ != account@) by {
                                assert(keys_pre[e] == acc0[e].0@);
                            };
                        }
                    }
                }
            },
        }
        k_groups = k_groups + dm;
        j = j + 1;
    }
    proof {
        assert(joined.subrange(0, n as int) =~= joined);
        assert(acc_cents(acc@) == pair_price_sum(joined));
        assert(acc_persons(acc@) == k_groups);
        assert(k_groups as int == pairs_distinct_persons(joined));
        assert(k_groups >= 1);
        assert(pair_price_sum(joined) == order_total_cents(*state));
    }
    // one exact debit per account: (K * cents + overhead * persons) / (100 K)
    let kk: i64 = k_groups;
    let den: i64 = 100 * kk;
    let mut bill: Vec<(String, Rational)> = Vec::new();
    let mut a: usize = 0;
    let ghost big_p = order_total_cents(*state);
    let ghost big_o = overhead as int;
    proof {
        assert(acc@.subrange(0, 0) =~= Seq::<(String, i64, i64)>::empty());
        assert(bill_sum(bill@) == (0int, 1int));
    }
    while a < acc.len()
        invariant
            a <= acc@.len(),
            1 <= kk <= 1000000,
            den == 100 * kk,
            big_o == overhead as int,
            -1000000 <= big_o <= 1000000,
            joined == state.joined(open_order.id),
            the_open_order(*state) == open_order,
            kk as int == pairs_distinct_persons(joined),
            acc@.len() == account_keys(*state, joined).len(),
            forall|b: int|
                0 <= b < acc@.len() ==> (#[trigger] acc@[b]).0@ == account_keys(
                    *state,
                    joined,
                )[b],
            forall|b: int|
                0 <= b < acc@.len() ==> (#[trigger] acc@[b]).1 == account_cents(
                    *state,
                    joined,
                    acc@[b].0@,
                ),
            forall|b: int|
                0 <= b < acc@.len() ==> (#[trigger] acc@[b]).2 == account_persons(
                    *state,
                    joined,
                    acc@[b].0@,
                ),
            forall|b: int|
                0 <= b < acc@.len() ==> -1000000000000 <= (#[trigger] acc@[b]).1 <= 1000000000000,
            forall|b: int| 0 <= b < acc@.len() ==> 0 <= (#[trigger] acc@[b]).2 <= kk,
            forall|b1: int, b2: int|
                0 <= b1 < b2 < acc@.len() ==> (#[trigger] acc@[b1]).0@ != (
                #[trigger] acc@[b2]).0@,
            forall|b: int|
                0 <= b < acc@.len() ==> key_is_billed_account(
                    *state,
                    (#[trigger] acc@[b]).0@,
                ),
            bill@.len() == a,
            forall|b: int| 0 <= b < a ==> (#[trigger] bill@[b]).0@ == acc@[b].0@,
            forall|b: int| 0 <= b < a ==> (#[trigger] bill@[b]).1.wf(),
            forall|b: int|
                0 <= b < a ==> (#[trigger] bill@[b]).1.eq_frac(
                    kk * account_cents(*state, joined, bill@[b].0@) + big_o * account_persons(
                        *state,
                        joined,
                        bill@[b].0@,
                    ),
                    100 * kk,
                ),
            forall|b: int|
                0 <= b < a ==> key_is_billed_account(*state, (#[trigger] bill@[b]).0@),
            crate::arith::frac_eq(
                bill_sum(bill@).0,
                bill_sum(bill@).1,
                kk * acc_cents(acc@.subrange(0, a as int)) + big_o * acc_persons(
                    acc@.subrange(0, a as int),
                ),
                100 * kk,
            ),
        decreases acc@.len() - a,
    {
        let ghost pre = acc@.subrange(0, a as int);
        let ghost post = acc@.subrange(0, a + 1);
        proof {
            assert(post.drop_last() =~= pre);
            assert(post.last() == acc@[a as int]);
        }
        let s_a: i64 = acc[a].1;
        let m_a: i64 = acc[a].2;
        proof {
            assert(-2000000000000000000 <= kk * s_a <= 2000000000000000000) by (nonlinear_arith)
                requires
                    1 <= kk <= 1000000,
                    -1000000000000 <= s_a <= 1000000000000,
            ;
            assert(-1000000000000 <= big_o * m_a <= 1000000000000) by (nonlinear_arith)
                requires
                    0 <= m_a <= 1000000,
                    -1000000 <= big_o <= 1000000,
            ;
        }
        let num: i64 = kk * s_a + (overhead as i64) * m_a;
        let x = Rational::frac_exact(num, den);
        let ghost bill0 = bill@;
        bill.push((acc[a].0.clone(), x));
        proof {
            assert(bill@.drop_last() =~= bill0);
            assert(bill@.last().1 == x);
            assert(bill@.last().0@ == acc@[a as int].0@);
            let sb = bill_sum(bill0);
            lemma_frac_add_common(
                sb.0,
                sb.1,
                x.num as int,
                x.den as int,
                kk * acc_cents(pre) + big_o * acc_persons(pre),
                kk * (s_a as int) + big_o * (m_a as int),
                100 * kk,
            );
            assert(kk * acc_cents(pre) + big_o * acc_persons(pre) + (kk * (s_a as int) + big_o
                * (m_a as int)) == kk * acc_cents(post) + big_o * acc_persons(post))
                by (nonlinear_arith)
                requires
                    acc_cents(post) == acc_cents(pre) + s_a,
                    acc_persons(post) == acc_persons(pre) + m_a,
            ;
        }
        a = a + 1;
    }
    proof {
        assert(acc@.subrange(0, acc@.len() as int) =~= acc@);
        let sb = bill_sum(bill@);
        assert(crate::arith::frac_eq(sb.0, sb.1, big_p + big_o, 100)) by (nonlinear_arith)
            requires
                sb.0 * (100 * kk) == (kk * big_p + big_o * kk) * sb.1,
                kk >= 1,
        ;
        // every billed person's account appears among the keys
        lemma_joined_pairs(*state, lines);
        assert forall|p: Seq<char>|
            order_persons(order_lines(*state)).contains(p) implies exists|i: int|
            0 <= i < bill@.len() && state.assoc_of(p) == Some((#[trigger] bill@[i]).0@) by {
            let lk = choose|lk: int|
                0 <= lk < lines.len() && (#[trigger] lines[lk]).person_name@ == p;
            assert(joined[lk].1 == lines[lk]);
            assert(person_in_pairs(joined, p)) by {
                assert(joined[lk].1.person_name@ == p);
            };
            let ac = state.assoc_of(p);
            let av = ac->Some_0;
            lemma_person_account_key(*state, joined, p, av);
            let e = choose|e: int|
                0 <= e < account_keys(*state, joined).len() && account_keys(*state, joined)[e]
                    == av;
            assert(bill@[e].0@ == av);
        }
        assert(bill_spec(*state, bill@));
    }
    Ok(bill)
}

/// The bill debits this account.
pub open spec fn in_bill(debits: Seq<(String, Rational)>, key: Seq<char>) -> bool {
    exists|l: int| 0 <= l < debits.len() && (#[trigger] debits[l]).0@ == key
}

/// The debit of an account (meaningful when the bill debits it and its
/// keys are distinct).
pub open spec fn debit_for(debits: Seq<(String, Rational)>, key: Seq<char>) -> Rational {
    debits[choose|l: int| 0 <= l < debits.len() && (#[trigger] debits[l]).0@ == key].1
}

/// The exact difference `b - d`, in normal form.
pub open spec fn diff_of(b: Rational, d: Rational) -> Rational {
    Rational {
        num: reduced_num(b.num * d.den - d.num * b.den, b.den * d.den) as i64,
        den: reduced_den(b.num * d.den - d.num * b.den, b.den * d.den) as i64,
    }
}

/// Each debited balance row, projected to the balance after paying, in
/// balance order.
pub open spec fn projected_rows(
    debits: Seq<(String, Rational)>,
    balances: Seq<(String, Rational)>,
) -> Seq<(String, Rational, Rational)>
    decreases balances.len(),
{
    if balances.len() == 0 {
        Seq::empty()
    } else {
        let p = projected_rows(debits, balances.drop_last());
        let row = balances.last();
        if in_bill(debits, row.0@) {
            p.push((row.0, row.1, diff_of(row.1, debit_for(debits, row.0@))))
        } else {
            p
        }
    }
}

/// Every projected difference fits the machine fraction.
pub open spec fn projections_fit(
    debits: Seq<(String, Rational)>,
    balances: Seq<(String, Rational)>,
) -> bool {
    forall|q: int|
        0 <= q < balances.len() && in_bill(debits, (#[trigger] balances[q]).0@) ==> {
            let b = balances[q].1;
            let d = debit_for(debits, balances[q].0@);
            crate::rational::fits_frac(b.num * d.den - d.num * b.den, b.den * d.den)
        }
}

/// A suggestion row comes from one balance row whose account the bill
/// debits: the account, its old balance, and the balance after paying.
pub open spec fn row_projected(
    debits: Seq<(String, Rational)>,
    balances: Seq<(String, Rational)>,
    row: (String, Rational, Rational),
) -> bool {
    exists|k: int, l: int|
        {
            &&& 0 <= k < balances.len()
            &&& 0 <= l < debits.len()
            &&& (#[trigger] balances[k]).0@ == row.0@
            &&& (#[trigger] debits[l]).0@ == row.0@
            &&& row.1 == balances[k].1
            &&& row.2.wf()
            &&& row.2.eq_frac(
                balances[k].1.num * debits[l].1.den - debits[l].1.num * balances[k].1.den,
                balances[k].1.den * debits[l].1.den,
            )
        }
}

/// A correct suggestion: of the projected rows, the three smallest by
/// projected balance (all of them when three or fewer match), in
/// ascending order.
pub open spec fn suggestion_ok(
    debits: Seq<(String, Rational)>,
    balances: Seq<(String, Rational)>,
    rows: Seq<(String, Rational, Rational)>,
) -> bool {
    let proj = projected_rows(debits, balances);
    &&& rows.len() <= 3
    &&& rows.len() == (if proj.len() <= 3 {
        proj.len() as int
    } else {
        3int
    })
    &&& forall|i: int, j: int|
        0 <= i < j < rows.len() ==> (#[trigger] rows[i]).2.le_spec((#[trigger] rows[j]).2)
    &&& (proj.len() <= 3 ==> rows.to_multiset() == proj.to_multiset())
    &&& forall|x: (String, Rational, Rational)|
        #[trigger] rows.to_multiset().count(x) <= proj.to_multiset().count(x)
    &&& forall|q: int|
        0 <= q < proj.len() ==> (rows.to_multiset().count(#[trigger] proj[q]) > 0 || (rows.len()
            > 0 && rows[rows.len() - 1].2.le_spec(proj[q].2)))
    &&& forall|i: int| 0 <= i < rows.len() ==> row_projected(debits, balances, #[trigger] rows[i])
}

/// Rank the accounts the bill debits by how poor paying would leave
/// them: project each debited balance, sort ascending by the projected
/// balance, and keep the first three.
pub fn suggest_rows(
    debits: &Vec<(String, Rational)>,
    balances: &Vec<(String, Rational)>,
) -> (r: Result<Vec<(String, Rational, Rational)>, Error>)
    requires
        forall|k: int| 0 <= k < debits@.len() ==> (#[trigger] debits@[k]).1.wf(),
        forall|k: int| 0 <= k < balances@.len() ==> (#[trigger] balances@[k]).1.wf(),
        forall|i: int, j: int|
            0 <= i < j < debits@.len() ==> (#[trigger] debits@[i]).0@ != (
            #[trigger] debits@[j]).0@,
    ensures
        match r {
            Ok(rows) => {
                &&& projections_fit(debits@, balances@)
                &&& suggestion_ok(debits@, balances@, rows@)
            },
            Err(e) => {
                &&& e == Error::AmountOutOfRange
                &&& !projections_fit(debits@, balances@)
            },
        },
{
    broadcast use vstd::seq_lib::group_to_multiset_ensures;

    let mut rows: Vec<(String, Rational, Rational)> = Vec::new();
    let mut k: usize = 0;
    proof {
        assert(balances@.subrange(0, 0) =~= Seq::<(String, Rational)>::empty());
    }
    while k < balances.len()
        invariant
            k <= balances@.len(),
            forall|q: int| 0 <= q < debits@.len() ==> (#[trigger] debits@[q]).1.wf(),
            forall|q: int| 0 <= q < balances@.len() ==> (#[trigger] balances@[q]).1.wf(),
            forall|i: int, j: int|
                0 <= i < j < debits@.len() ==> (#[trigger] debits@[i]).0@ != (
                #[trigger] debits@[j]).0@,
            rows@.len() == projected_rows(debits@, balances@.subrange(0, k as int)).len(),
            rows@.to_multiset() == projected_rows(
                debits@,
                balances@.subrange(0, k as int),
            ).to_multiset(),
            forall|q: int|
                0 <= q < k && in_bill(debits@, (#[trigger] balances@[q]).0@) ==> {
                    let b = balances@[q].1;
                    let d = debit_for(debits@, balances@[q].0@);
                    crate::rational::fits_frac(b.num * d.den - d.num * b.den, b.den * d.den)
                },
            forall|i: int, j: int|
                0 <= i < j < rows@.len() ==> (#[trigger] rows@[i]).2.le_spec(
                    (#[trigger] rows@[j]).2,
                ),
            forall|i: int|
                0 <= i < rows@.len() ==> row_projected(debits@, balances@, #[trigger] rows@[i]),
        decreases balances@.len() - k,
    {
        let ghost bpre = balances@.subrange(0, k as int);
        let ghost bpost = balances@.subrange(0, k + 1);
        proof {
            assert(bpost.drop_last() =~= bpre);
            assert(bpost.last() == balances@[k as int]);
        }
        // find this account in the bill
        let mut l: usize = 0;
        let mut hit: Option<usize> = None;
        while l < debits.len() && hit.is_none()
            invariant
                l <= debits@.len(),
                k < balances@.len(),
                match hit {
                    Some(h) => h < debits@.len() && debits@[h as int].0@ == balances@[
                        k as int].0@,
                    None => forall|b: int|
                        0 <= b < l ==> (#[trigger] debits@[b]).0@ != balances@[k as int].0@,
                },
            decreases debits@.len() - l,
        {
            if str_eq(debits[l].0.as_str(), balances[k].0.as_str()) {
                hit = Some(l);
            }
            l = l + 1;
        }
        match hit {
            Some(h) => {
                proof {
                    // the matching debit is unique, so it is the chosen one
                    assert(in_bill(debits@, balances@[k as int].0@)) by {
                        assert(debits@[h as int].0@ == balances@[k as int].0@);
                    };
                    let l0 = choose|l0: int|
                        0 <= l0 < debits@.len() && (#[trigger] debits@[l0]).0@ == balances@[
                            k as int].0@;
                    if l0 != h as int {
                        assert(false);
                    }
                    assert(debit_for(debits@, balances@[k as int].0@) == debits@[h as int].1);
                }
                let ghost bb = balances@[k as int].1;
                let ghost dd = debits@[h as int].1;
                let ghost cn = bb.num * dd.den - dd.num * bb.den;
                let ghost cd = bb.den * dd.den;
                proof {
                    assert(cd >= 1) by (nonlinear_arith)
                        requires
                            cd == bb.den * dd.den,
                            bb.den >= 1,
                            dd.den >= 1,
                    ;
                }
                let projected = match balances[k].1.sub(&debits[h].1) {
                    Ok(x) => x,
                    Err(_) => {
                        proof {
                            assert(!projections_fit(debits@, balances@)) by {
                                assert(in_bill(debits@, (balances@[k as int]).0@));
                            };
                        }
                        return Err(Error::AmountOutOfRange);
                    },
                };
                proof {
                    lemma_eq_frac_is_reduced(projected, cn, cd);
                    assert(projected == diff_of(bb, dd));
                }
                let row = (balances[k].0.clone(), balances[k].1, projected);
                // insert into the ascending list, after smaller-or-equal
                // projections
                let mut j: usize = 0;
                while j < rows.len() && rows[j].2.le(&projected)
                    invariant
                        j <= rows@.len(),
                        projected.wf(),
                        forall|q: int| 0 <= q < rows@.len() ==> (#[trigger] rows@[q]).2.wf(),
                        forall|q: int|
                            0 <= q < j ==> (#[trigger] rows@[q]).2.le_spec(projected),
                    decreases rows@.len() - j,
                {
                    j = j + 1;
                }
                let ghost rows0 = rows@;
                proof {
                    if j < rows.len() {
                        // totality of the value order
                        assert(rows0[j as int].2.le_spec(projected) || projected.le_spec(
                            rows0[j as int].2,
                        ));
                    }
                }
                rows.insert(j, row);
                proof {
                    broadcast use vstd::seq_lib::group_to_multiset_ensures;

                    vstd::seq_lib::to_multiset_insert(rows0, j as int, row);
                    assert(projected_rows(debits@, bpost) == projected_rows(debits@, bpre).push(
                        (balances@[k as int].0, balances@[k as int].1, diff_of(bb, dd)),
                    ));
                    assert(row == (balances@[k as int].0, balances@[k as int].1, diff_of(
                        bb,
                        dd,
                    )));
                    assert(projected_rows(debits@, bpre).push(row).to_multiset()
                        =~= projected_rows(debits@, bpre).to_multiset().insert(row));
                    assert(rows@.to_multiset() == projected_rows(debits@, bpost).to_multiset());
                    assert(rows@[j as int] == row);
                    assert forall|i1: int, i2: int|
                        0 <= i1 < i2 < rows@.len() implies (#[trigger] rows@[i1]).2.le_spec(
                        (#[trigger] rows@[i2]).2,
                    ) by {
                        if i1 < j && i2 == j as int {
                            assert(rows@[i1] == rows0[i1]);
                        } else if i1 == j as int && i2 > j {
                            assert(rows@[i2] == rows0[i2 - 1]);
                            if i2 - 1 > j {
                                crate::rational::lemma_rational_le_trans(
                                    projected,
                                    rows0[j as int].2,
                                    rows0[i2 - 1].2,
                                );
                            }
                        } else if i1 < j && i2 > j {
                            assert(rows@[i1] == rows0[i1]);
                            assert(rows@[i2] == rows0[i2 - 1]);
                        } else if i1 != j as int && i2 != j as int {
                            if i2 < j {
                                assert(rows@[i1] == rows0[i1]);
                                assert(rows@[i2] == rows0[i2]);
                            } else {
                                assert(rows@[i1] == rows0[i1 - 1]);
                                assert(rows@[i2] == rows0[i2 - 1]);
                            }
                        }
                    }
                    assert forall|i: int| 0 <= i < rows@.len() implies row_projected(
                        debits@,
                        balances@,
                        #[trigger] rows@[i],
                    ) by {
                        if i < j {
                            assert(rows@[i] == rows0[i]);
                        } else if i > j {
                            assert(rows@[i] == rows0[i - 1]);
                        } else {
                            assert(0 <= k < balances@.len());
                        }
                    }
                }
            },
            None => {
                proof {
                    assert(!in_bill(debits@, balances@[k as int].0@));
                    assert(projected_rows(debits@, bpost) == projected_rows(debits@, bpre));
                }
            },
        }
        k = k + 1;
    }
    proof {
        assert(balances@.subrange(0, balances@.len() as int) =~= balances@);
        assert(projections_fit(debits@, balances@));
    }
    // keep the three poorest
    let ghost proj = projected_rows(debits@, balances@);
    let ghost full = rows@;
    if rows.len() > 3 {
        rows.truncate(3);
        proof {
            assert(rows@ =~= full.subrange(0, 3));
            assert(full.subrange(0, 3) + full.subrange(3, full.len() as int) =~= full);
            vstd::seq_lib::lemma_multiset_commutative(
                full.subrange(0, 3),
                full.subrange(3, full.len() as int),
            );
        }
    }
    proof {
        // the kept rows are a selection of the projections, and nothing
        // smaller than the kept rows was dropped
        assert forall|x: (String, Rational, Rational)|
            #[trigger] rows@.to_multiset().count(x) <= proj.to_multiset().count(x) by {
            if full.len() > 3 {
                assert(full.to_multiset().count(x) == rows@.to_multiset().count(x)
                    + full.subrange(3, full.len() as int).to_multiset().count(x));
            }
        }
        assert forall|q: int| 0 <= q < proj.len() implies (rows@.to_multiset().count(
            #[trigger] proj[q],
        ) > 0 || (rows@.len() > 0 && rows@[rows@.len() - 1].2.le_spec(proj[q].2))) by {
            assert(proj.contains(proj[q]));
            assert(proj.to_multiset().count(proj[q]) > 0);
            assert(full.to_multiset().count(proj[q]) > 0);
            assert(full.contains(proj[q]));
            let idx = choose|idx: int| 0 <= idx < full.len() && full[idx] == proj[q];
            if full.len() <= 3 {
                assert(rows@.to_multiset().count(proj[q]) > 0);
            } else {
                if idx < 3 {
                    assert(rows@[idx] == proj[q]);
                    assert(rows@.contains(proj[q]));
                    assert(rows@.to_multiset().count(proj[q]) > 0);
                } else {
                    assert(full[2].2.le_spec(full[idx].2));
                    assert(rows@[rows@.len() - 1] == full[2]);
                }
            }
        }
    }
    Ok(rows)
}

/// A prepared settlement: a description, the per-account debits, and a
/// single balancing credit.
#[derive(Debug)]
pub struct SettlementPlan {
    pub description: String,
    pub debits: Vec<(String, Rational)>,
    pub credits: Vec<(String, Rational)>,
}

/// Bill values have positive denominators, so their running sum does too.
pub proof fn lemma_bill_sum_den_pos(s: Seq<(String, Rational)>)
    requires
        forall|i: int| 0 <= i < s.len() ==> (#[trigger] s[i]).1.wf(),
    ensures
        bill_sum(s).1 >= 1,
    decreases s.len(),
{
    if s.len() > 0 {
        assert(forall|i: int|
            0 <= i < s.drop_last().len() ==> (#[trigger] s.drop_last()[i]).1 == s[i].1);
        lemma_bill_sum_den_pos(s.drop_last());
        let p = bill_sum(s.drop_last());
        assert(p.1 * s.last().1.den >= 1) by (nonlinear_arith)
            requires
                p.1 >= 1,
                s.last().1.den >= 1,
        ;
    }
}

/// Folding one more value into a running exact total.
proof fn lemma_total_step(tn: int, td: int, xn: int, xd: int, a: int, b: int)
    requires
        tn * b == a * td,
    ensures
        (tn * xd + xn * td) * (b * xd) == (a * xd + xn * b) * (td * xd),
{
    assert(tn * xd * (b * xd) == a * xd * (td * xd)) by (nonlinear_arith)
        requires
            tn * b == a * td,
    ;
    assert(xn * td * (b * xd) == xn * b * (td * xd)) by (nonlinear_arith);
    assert((tn * xd + xn * td) * (b * xd) == tn * xd * (b * xd) + xn * td * (b * xd))
        by (nonlinear_arith);
    assert((a * xd + xn * b) * (td * xd) == a * xd * (td * xd) + xn * b * (td * xd))
        by (nonlinear_arith);
}

/// The bill can be computed: an open order with lines, complete
/// associations, and amounts within the machine limits.
pub open spec fn bill_ready(st: State) -> bool {
    &&& st.has_open_order()
    &&& st.joined(the_open_order(st).id).len() > 0
    &&& assoc_complete(st)
    &&& within_limits(st)
}

/// The open order's menu and that menu's restaurant exist.
pub open spec fn venue_known(st: State) -> bool {
    exists|mi: int, ri: int|
        {
            &&& 0 <= mi < st.menus@.len()
            &&& 0 <= ri < st.restaurants@.len()
            &&& (#[trigger] st.menus@[mi]).id == the_open_order(st).menu
            &&& (#[trigger] st.restaurants@[ri]).id == st.menus@[mi].restaurant
        }
}

/// Equal-valued fractions have the same normal form.
pub proof fn lemma_reduced_same_value(n1: int, d1: int, n2: int, d2: int)
    requires
        d1 >= 1,
        d2 >= 1,
        crate::arith::frac_eq(n1, d1, n2, d2),
    ensures
        reduced_num(n1, d1) == reduced_num(n2, d2),
        reduced_den(n1, d1) == reduced_den(n2, d2),
{
    crate::arith::lemma_reduced_frac(n1, d1);
    crate::arith::lemma_reduced_frac(n2, d2);
    assert(reduced_num(n1, d1) * d2 == n2 * reduced_den(n1, d1)) by (nonlinear_arith)
        requires
            reduced_num(n1, d1) * d1 == n1 * reduced_den(n1, d1),
            n1 * d2 == n2 * d1,
            d1 >= 1,
    ;
    assert(reduced_num(n1, d1) * reduced_den(n2, d2) == reduced_num(n2, d2) * reduced_den(
        n1,
        d1,
    )) by (nonlinear_arith)
        requires
            reduced_num(n1, d1) * d2 == n2 * reduced_den(n1, d1),
            reduced_num(n2, d2) * d2 == n2 * reduced_den(n2, d2),
            d2 >= 1,
    ;
    crate::arith::lemma_canonical_unique(
        reduced_num(n1, d1),
        reduced_den(n1, d1),
        reduced_num(n2, d2),
        reduced_den(n2, d2),
    );
}

/// The running total of the first `i` debits, in normal form.
pub open spec fn running_total(s: Seq<(String, Rational)>, i: int) -> Rational {
    let bs = bill_sum(s.subrange(0, i));
    Rational { num: reduced_num(bs.0, bs.1) as i64, den: reduced_den(bs.0, bs.1) as i64 }
}

/// Every step of totalling the debits stays within the machine fraction.
pub open spec fn totals_fit(s: Seq<(String, Rational)>) -> bool {
    forall|i: int|
        0 <= i < s.len() ==> {
            let t = running_total(s, i);
            crate::rational::fits_frac(
                t.num * (#[trigger] s[i]).1.den + s[i].1.num * t.den,
                t.den * s[i].1.den,
            )
        }
}

/// Build the settlement of the open order: the bill as debits and one
/// balancing credit to the chosen account — the explicit argument if
/// given, else the acting user's own association.  Total credits equal
/// total debits by construction, exactly.
#[verifier::rlimit(60)]
pub fn settle_plan(state: &State, args: &str, user_name: &str) -> (r: Result<
    SettlementPlan,
    Error,
>)
    requires
        state.wf(),
    ensures
        match r {
            Ok(plan) => {
                &&& bill_ready(*state)
                &&& venue_known(*state)
                &&& bill_spec(*state, plan.debits@)
                &&& totals_fit(plan.debits@)
                &&& plan.credits@.len() == 1
                &&& plan.credits@[0].1.wf()
                &&& plan.credits@[0].1.eq_frac(
                    order_total_cents(*state) + the_open_order(*state).overhead_in_cents,
                    100,
                )
                &&& crate::arith::frac_eq(
                    bill_sum(plan.debits@).0,
                    bill_sum(plan.debits@).1,
                    order_total_cents(*state) + the_open_order(*state).overhead_in_cents,
                    100,
                )
                &&& forall|i: int| 0 <= i < plan.debits@.len() ==> (#[trigger] plan.debits@[i]).1.wf()
                &&& (args@.len() > 0 ==> plan.credits@[0].0@ == args@)
                &&& (args@.len() == 0 ==> state.assoc_of(user_name@) == Some(
                    plan.credits@[0].0@,
                ))
                &&& exists|mi: int, ri: int|
                    {
                        &&& 0 <= mi < state.menus@.len()
                        &&& 0 <= ri < state.restaurants@.len()
                        &&& (#[trigger] state.menus@[mi]).id == the_open_order(*state).menu
                        &&& (#[trigger] state.restaurants@[ri]).id == state.menus@[mi].restaurant
                        &&& plan.description@ == state.restaurants@[ri].name@
                    }
            },
            Err(Error::StateError(e)) => {
                &&& e == crate::state::Error::NoOpenOrder
                &&& !state.has_open_order()
            },
            Err(Error::DivisionByZero) => {
                &&& state.has_open_order()
                &&& state.joined(the_open_order(*state).id).len() == 0
            },
            Err(Error::NotFound) => {
                &&& bill_ready(*state)
                &&& !venue_known(*state)
            },
            Err(Error::MissingAssociation(p)) => {
                ||| {
                    &&& state.has_open_order()
                    &&& state.joined(the_open_order(*state).id).len() > 0
                    &&& order_persons(order_lines(*state)).contains(p@)
                    &&& state.assoc_of(p@) is None
                    &&& forall|q: Seq<char>|
                        order_persons(order_lines(*state)).contains(q) && (
                        #[trigger] state.assoc_of(q)) is None ==> lex_le(p@, q)
                }
                ||| {
                    &&& bill_ready(*state)
                    &&& venue_known(*state)
                    &&& args@.len() == 0
                    &&& state.assoc_of(user_name@) is None
                    &&& p@ == user_name@
                }
            },
            Err(Error::AmountOutOfRange) => {
                ||| {
                    &&& state.has_open_order()
                    &&& state.joined(the_open_order(*state).id).len() > 0
                    &&& assoc_complete(*state)
                    &&& !within_limits(*state)
                }
                ||| exists|b: Seq<(String, Rational)>|
                    #[trigger] bill_spec(*state, b) && !totals_fit(b)
            },
            Err(_) => false,
        },
{
    let debits = match generate_bill(state) {
        Ok(b) => b,
        Err(e) => {
            return Err(e);
        },
    };
    let open_order = match state.demand_open_order() {
        Ok(o) => o,
        Err(e) => {
            return Err(Error::StateError(e));
        },
    };
    proof {
        lemma_open_unique(*state, open_order);
    }
    let menu = match state.menu_object(open_order.menu) {
        Some(m) => m,
        None => {
            proof {
                if venue_known(*state) {
                    let (mi, ri) = choose|mi: int, ri: int|
                        {
                            &&& 0 <= mi < state.menus@.len()
                            &&& 0 <= ri < state.restaurants@.len()
                            &&& (#[trigger] state.menus@[mi]).id == the_open_order(*state).menu
                            &&& (#[trigger] state.restaurants@[ri]).id == state.menus@[
                                mi].restaurant
                        };
                    assert(state.menus@[mi].id == open_order.menu);
                    assert(false);
                }
            }
            return Err(Error::NotFound);
        },
    };
    let restaurant = match state.restaurant(menu.restaurant) {
        Some(x) => x,
        None => {
            proof {
                if venue_known(*state) {
                    let (mi, ri) = choose|mi: int, ri: int|
                        {
                            &&& 0 <= mi < state.menus@.len()
                            &&& 0 <= ri < state.restaurants@.len()
                            &&& (#[trigger] state.menus@[mi]).id == the_open_order(*state).menu
                            &&& (#[trigger] state.restaurants@[ri]).id == state.menus@[
                                mi].restaurant
                        };
                    let im = choose|im: int|
                        0 <= im < state.menus@.len() && state.menus@[im] == menu;
                    if mi != im {
                        assert(state.menus@[mi].id != state.menus@[im].id);
                        assert(false);
                    }
                    assert(state.restaurants@[ri].id == menu.restaurant);
                    assert(false);
                }
            }
            return Err(Error::NotFound);
        },
    };
    let description = restaurant.name.clone();
    proof {
        let mi = choose|mi: int|
            0 <= mi < state.menus@.len() && state.menus@[mi] == menu;
        let ri = choose|ri: int|
            0 <= ri < state.restaurants@.len() && state.restaurants@[ri] == restaurant;
        assert(state.menus@[mi].id == the_open_order(*state).menu && state.restaurants@[ri].id
            == state.menus@[mi].restaurant && description@ == state.restaurants@[ri].name@);
        assert(venue_known(*state));
    }
    let credit_account = if !args.is_empty() {
        args.to_owned()
    } else {
        match assoc_lookup(state, user_name) {
            Some(a) => a,
            None => {
                return Err(Error::MissingAssociation(user_name.to_owned()));
            },
        }
    };
    // the balancing credit: the exact sum of all debits
    let mut total = Rational::zero();
    let mut i: usize = 0;
    proof {
        assert(debits@.subrange(0, 0) =~= Seq::<(String, Rational)>::empty());
    }
    proof {
        lemma_bill_sum_den_pos(debits@.subrange(0, 0));
        lemma_eq_frac_is_reduced(
            total,
            bill_sum(debits@.subrange(0, 0)).0,
            bill_sum(debits@.subrange(0, 0)).1,
        );
        assert(total == running_total(debits@, 0));
    }
    while i < debits.len()
        invariant
            i <= debits@.len(),
            bill_spec(*state, debits@),
            forall|q: int| 0 <= q < debits@.len() ==> (#[trigger] debits@[q]).1.wf(),
            total.wf(),
            total == running_total(debits@, i as int),
            total.eq_frac(
                bill_sum(debits@.subrange(0, i as int)).0,
                bill_sum(debits@.subrange(0, i as int)).1,
            ),
            forall|q: int|
                0 <= q < i ==> {
                    let t = running_total(debits@, q);
                    crate::rational::fits_frac(
                        t.num * (#[trigger] debits@[q]).1.den + debits@[q].1.num * t.den,
                        t.den * debits@[q].1.den,
                    )
                },
        decreases debits@.len() - i,
    {
        let ghost pre = debits@.subrange(0, i as int);
        let ghost post = debits@.subrange(0, i + 1);
        proof {
            assert(post.drop_last() =~= pre);
            assert(post.last() == debits@[i as int]);
        }
        let ghost total0 = total;
        total = match total.add(&debits[i].1) {
            Ok(x) => x,
            Err(_) => {
                proof {
                    assert(!totals_fit(debits@)) by {
                        assert(total0 == running_total(debits@, i as int));
                        assert(!crate::rational::fits_frac(
                            total0.num * debits@[i as int].1.den + debits@[i as int].1.num
                                * total0.den,
                            total0.den * debits@[i as int].1.den,
                        ));
                    };
                    assert(bill_spec(*state, debits@) && !totals_fit(debits@));
                }
                return Err(Error::AmountOutOfRange);
            },
        };
        proof {
            let sb = bill_sum(pre);
            let xn = debits@[i as int].1.num as int;
            let xd = debits@[i as int].1.den as int;
            lemma_bill_sum_den_pos(pre);
            lemma_total_step(total0.num as int, total0.den as int, xn, xd, sb.0, sb.1);
            let nn = total0.num * xd + xn * total0.den;
            let dd = total0.den * xd;
            assert(debits@[i as int].1.wf());
            assert(total0.den >= 1 && xd >= 1);
            assert(dd >= 1) by (nonlinear_arith)
                requires
                    dd == total0.den * xd,
                    total0.den >= 1,
                    xd >= 1,
            ;
            assert(total.num * (sb.1 * xd) == (sb.0 * xd + xn * sb.1) * total.den)
                by (nonlinear_arith)
                requires
                    total.num * dd == nn * total.den,
                    nn * (sb.1 * xd) == (sb.0 * xd + xn * sb.1) * dd,
                    dd >= 1,
            ;
            assert(bill_sum(post) == frac_add_p(sb, (xn, xd)));
            // the step stayed in range, and the new total is the normal
            // form of the new running sum
            lemma_eq_frac_is_reduced(total, nn, dd);
            assert({
                let t = running_total(debits@, i as int);
                crate::rational::fits_frac(
                    t.num * debits@[i as int].1.den + debits@[i as int].1.num * t.den,
                    t.den * debits@[i as int].1.den,
                )
            });
            lemma_bill_sum_den_pos(post);
            lemma_eq_frac_is_reduced(total, bill_sum(post).0, bill_sum(post).1);
            assert(total == running_total(debits@, i + 1));
        }
        i = i + 1;
    }
    proof {
        assert(totals_fit(debits@));
    }
    proof {
        assert(debits@.subrange(0, debits@.len() as int) =~= debits@);
        lemma_bill_sum_den_pos(debits@);
        let sb = bill_sum(debits@);
        let target = order_total_cents(*state) + the_open_order(*state).overhead_in_cents;
        assert(total.num * 100 == target * total.den) by (nonlinear_arith)
            requires
                total.num * sb.1 == sb.0 * total.den,
                sb.0 * 100 == target * sb.1,
                sb.1 >= 1,
                total.den >= 1,
        ;
    }
    let mut credits: Vec<(String, Rational)> = Vec::new();
    credits.push((credit_account, total));
    proof {
        assert(credits@.len() == 1);
        assert(credits@[0].1 == total);
    }
    Ok(SettlementPlan { description, debits, credits })
}

/// Updating one accumulator entry adds to the totals.
proof fn lemma_acc_sums_update(s0: Seq<(String, i64, i64)>, s1: Seq<(String, i64, i64)>, f: int, ds: int, dm: int)
    requires
        0 <= f < s0.len(),
        s1.len() == s0.len(),
        s1[f].0 == s0[f].0,
        s1[f].1 == s0[f].1 + ds,
        s1[f].2 == s0[f].2 + dm,
        forall|b: int| 0 <= b < s0.len() && b != f ==> (#[trigger] s1[b]) == s0[b],
    ensures
        acc_cents(s1) == acc_cents(s0) + ds,
        acc_persons(s1) == acc_persons(s0) + dm,
    decreases s0.len(),
{
    if f == s0.len() - 1 {
        assert(s1.drop_last() =~= s0.drop_last());
    } else {
        lemma_acc_sums_update(s0.drop_last(), s1.drop_last(), f, ds, dm);
        assert(s1.last() == s0.last());
    }
}

} // verus!

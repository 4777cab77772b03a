//! The command layer: free-text commands against the shared state.
//!
//! Each command takes its arguments, the acting user, and the clock
//! reading, and returns a structured response; presentation layers render
//! the responses into their own formats.  Commands that must talk to the
//! external ledger return what they need from it instead of doing the
//! transfer themselves: the shell performs the transfer and hands the
//! outcome back in.

use crate::bill::{
    assoc_complete, bill_ready, bill_spec, generate_bill, order_lines, order_persons,
    projections_fit, settle_plan, suggest_rows, suggestion_ok, the_open_order, within_limits,
    Error, SettlementPlan,
};
use crate::menu_query::Query;
use crate::models::{MenuItem, Restaurant, SharebillAssociation};
use crate::rational::{lemma_eq_frac_is_reduced, Rational};
use crate::state::State;
use crate::strorder::str_eq;
use crate::text::{find_char_in, parse_cents, push_int};
use vstd::prelude::*;
use vstd::string::{StrSliceExecFns, StringExecFns};

verus! {

/// A structured command response, for presentation layers to render.
#[derive(Debug)]
pub enum Response {
    OrderNoMatch { search_string: String },
    PlacedOrder { menu_items: Vec<MenuItem> },
    Restaurants { restaurants: Vec<Restaurant> },
    RestaurantsNoMatch { restaurants: Vec<Restaurant> },
    OpenedOrder { menu_url: String, restaurant_name: String },
    ClosedOrder,
    Clear,
    Associations { associations: Vec<SharebillAssociation> },
    NewAssociation { user_name: String, sharebill_account: String },
    Sharebill { url: String },
    Overhead { overhead_in_cents: i32 },
    OverheadSet { prev_overhead_in_cents: i32, new_overhead_in_cents: i32 },
    Summary { orders: Vec<(String, Vec<MenuItem>)> },
    SearchResults { query: String, items: Vec<MenuItem> },
    Price {
        overhead: Rational,
        overhead_per_person: Rational,
        summary: Vec<(String, Rational, Vec<MenuItem>)>,
    },
    Suggest { balances: Vec<(String, Rational, Rational)> },
    Help,
    NotUnderstood { command: String, args: String },
}

/// What a command asks of the shell: a finished response, or one ledger
/// exchange whose outcome is handed back through `suggest_with_balances`
/// or `settlement_posted`.
#[derive(Debug)]
pub enum CommandOutcome {
    Done(Response),
    NeedBalances,
    NeedPost(SettlementPlan),
}

fn cmd_restaurants(state: &State) -> (r: Result<Response, Error>)
    ensures
        match r {
            Ok(Response::Restaurants { restaurants }) => restaurants@ == state.restaurants@,
            _ => false,
        },
{
    Ok(Response::Restaurants { restaurants: state.restaurants() })
}

fn cmd_openorder(state: &mut State, args: &str, base_url: &str, now: i32) -> (r: Result<
    Response,
    Error,
>)
    requires
        old(state).wf(),
    ensures
        final(state).wf(),
        final(state).restaurants@ == old(state).restaurants@,
        final(state).menus@ == old(state).menus@,
        final(state).menu_items@ == old(state).menu_items@,
        final(state).order_items@ == old(state).order_items@,
        final(state).associations@ == old(state).associations@,
        match r {
            Ok(Response::RestaurantsNoMatch { restaurants }) => {
                &&& forall|i: int|
                    0 <= i < old(state).restaurants@.len() ==> (#[trigger] old(
                        state,
                    ).restaurants@[i]).name@ != args@
                &&& restaurants@ == old(state).restaurants@
                &&& final(state).orders@ == old(state).orders@
            },
            Ok(Response::OpenedOrder { menu_url, restaurant_name }) => {
                &&& restaurant_name@ == args@
                &&& !old(state).has_open_order()
                &&& exists|r: crate::models::Restaurant, m: crate::models::Menu|
                    {
                        &&& #[trigger] old(state).restaurants@.contains(r)
                        &&& r.name@ == args@
                        &&& #[trigger] old(state).menus@.contains(m)
                        &&& m.restaurant == r.id
                        &&& forall|i: int|
                            0 <= i < old(state).menus@.len() && (#[trigger] old(
                                state,
                            ).menus@[i]).restaurant == r.id ==> old(state).menus@[i].imported
                                <= m.imported
                        &&& final(state).orders@.len() == old(state).orders@.len() + 1
                        &&& final(state).orders@.drop_last() == old(state).orders@
                        &&& final(state).orders@.last().menu == m.id
                        &&& final(state).orders@.last().overhead_in_cents == 0
                        &&& final(state).orders@.last().opened == now
                        &&& final(state).orders@.last().closed is None
                        &&& menu_url@ == base_url@ + "menu/"@ + crate::text::int_digits(
                            m.id.0 as int,
                        )
                    }
            },
            Ok(_) => false,
            Err(Error::StateError(e)) => {
                &&& final(state).orders@ == old(state).orders@
                &&& (match e {
                    crate::state::Error::NotFound => exists|r: crate::models::Restaurant|
                        {
                            &&& #[trigger] old(state).restaurants@.contains(r)
                            &&& r.name@ == args@
                            &&& forall|i: int|
                                0 <= i < old(state).menus@.len() ==> (#[trigger] old(
                                    state,
                                ).menus@[i]).restaurant != r.id
                        },
                    crate::state::Error::OrderAlreadyOpen(o) => {
                        &&& old(state).has_open_order()
                        &&& old(state).orders@.contains(o)
                        &&& o.closed is None
                    },
                    crate::state::Error::StoreError => {
                        &&& !old(state).has_open_order()
                        &&& old(state).next_order_id == i32::MAX
                    },
                    _ => false,
                })
            },
            Err(_) => false,
        },
{
    let restaurant = match state.restaurant_by_name(args) {
        Some(x) => x,
        None => {
            return Ok(Response::RestaurantsNoMatch { restaurants: state.restaurants() });
        },
    };
    let menu = match state.current_menu_for_restaurant(restaurant.id) {
        Ok(m) => m,
        Err(e) => {
            return Err(Error::StateError(e));
        },
    };
    match state.create_order(menu.id, now) {
        Ok(()) => {},
        Err(e) => {
            return Err(Error::StateError(e));
        },
    }
    let mut menu_url = base_url.to_owned();
    proof {
        reveal_strlit("menu/");
    }
    menu_url.append("menu/");
    push_int(&mut menu_url, menu.id.0);
    proof {
        assert(menu_url@ =~= base_url@ + "menu/"@ + crate::text::int_digits(menu.id.0 as int));
    }
    Ok(Response::OpenedOrder { menu_url, restaurant_name: restaurant.name })
}

fn cmd_closeorder(state: &mut State, now: i32) -> (r: Result<Response, Error>)
    requires
        old(state).wf(),
    ensures
        final(state).wf(),
        final(state).restaurants@ == old(state).restaurants@,
        final(state).menus@ == old(state).menus@,
        final(state).menu_items@ == old(state).menu_items@,
        final(state).order_items@ == old(state).order_items@,
        final(state).associations@ == old(state).associations@,
        match r {
            Ok(Response::ClosedOrder) => {
                &&& old(state).has_open_order()
                &&& exists|k: int|
                    crate::state::orders_closed_at(
                        old(state).orders@,
                        final(state).orders@,
                        k,
                        now,
                    )
            },
            Ok(_) => false,
            Err(Error::StateError(e)) => {
                &&& e == crate::state::Error::NoOpenOrder
                &&& !old(state).has_open_order()
                &&& final(state).orders@ == old(state).orders@
            },
            Err(_) => false,
        },
{
    match state.close_current_order(now) {
        Ok(()) => Ok(Response::ClosedOrder),
        Err(e) => Err(Error::StateError(e)),
    }
}

fn cmd_search(state: &State, args: &str) -> (r: Result<Response, Error>)
    requires
        state.wf(),
    ensures
        match r {
            Ok(Response::SearchResults { query, items }) => {
                &&& state.has_open_order()
                &&& query@ == args@
                &&& crate::menu_query::resolved_items(
                    *state,
                    the_open_order(*state).menu,
                    args@,
                    items@,
                )
            },
            Ok(_) => false,
            Err(Error::StateError(e)) => {
                &&& e == crate::state::Error::NoOpenOrder
                &&& !state.has_open_order()
            },
            Err(_) => false,
        },
{
    let query = Query::interpret_string(args);
    let open_order = match state.demand_open_order() {
        Ok(o) => o,
        Err(e) => {
            return Err(Error::StateError(e));
        },
    };
    proof {
        crate::bill::lemma_open_unique(*state, open_order);
    }
    let items = match state.query_menu(open_order.menu, &query) {
        Ok(v) => v,
        Err(e) => {
            return Err(Error::StateError(e));
        },
    };
    Ok(Response::SearchResults { query: args.to_owned(), items })
}

fn cmd_order(state: &mut State, args: &str, user_name: &str) -> (r: Result<Response, Error>)
    requires
        old(state).wf(),
    ensures
        final(state).wf(),
        final(state).restaurants@ == old(state).restaurants@,
        final(state).menus@ == old(state).menus@,
        final(state).menu_items@ == old(state).menu_items@,
        final(state).orders@ == old(state).orders@,
        final(state).associations@ == old(state).associations@,
        match r {
            Ok(Response::PlacedOrder { menu_items }) => {
                &&& old(state).has_open_order()
                &&& menu_items@.len() == 1
                &&& crate::menu_query::best_match(
                    *old(state),
                    the_open_order(*old(state)).menu,
                    args@,
                    menu_items@[0],
                )
                &&& final(state).order_items@.len() == old(state).order_items@.len() + 1
                &&& final(state).order_items@.drop_last() == old(state).order_items@
                &&& final(state).order_items@.last().order == the_open_order(*old(state)).id
                &&& final(state).order_items@.last().person_name@ == user_name@
                &&& final(state).order_items@.last().menu_item == menu_items@[0].id
            },
            Ok(Response::OrderNoMatch { search_string }) => {
                &&& old(state).has_open_order()
                &&& search_string@ == args@
                &&& crate::menu_query::no_match(*old(state), the_open_order(*old(state)).menu, args@)
                &&& final(state).order_items@ == old(state).order_items@
            },
            Ok(_) => false,
            Err(Error::StateError(e)) => {
                &&& final(state).order_items@ == old(state).order_items@
                &&& (match e {
                    crate::state::Error::NoOpenOrder => !old(state).has_open_order(),
                    crate::state::Error::StoreError => old(state).next_order_item_id
                        == i32::MAX,
                    _ => false,
                })
            },
            Err(_) => false,
        },
{
    let query = Query::interpret_string(args);
    let open_order = match state.demand_open_order() {
        Ok(o) => o,
        Err(e) => {
            return Err(Error::StateError(e));
        },
    };
    proof {
        crate::bill::lemma_open_unique(*state, open_order);
    }
    let mut items = match state.query_menu(open_order.menu, &query) {
        Ok(v) => v,
        Err(e) => {
            return Err(Error::StateError(e));
        },
    };
    if items.len() == 0 {
        proof {
            broadcast use vstd::seq_lib::group_to_multiset_ensures;

            match query {
                Query::ExactInteger(n) => {},
                Query::FuzzyString(ref q) => {
                    let mitems = crate::state::items_of_menu(state.menu_items@, open_order.menu);
                    assert(mitems.to_multiset().len() == mitems.len());
                    assert(items@.to_multiset().len() == items@.len());
                },
            }
            assert(crate::menu_query::no_match(*state, open_order.menu, args@));
        }
        return Ok(Response::OrderNoMatch { search_string: args.to_owned() });
    }
    // the best match comes first
    let ghost items0 = items@;
    let menu_item = items.remove(0);
    proof {
        broadcast use vstd::seq_lib::group_to_multiset_ensures;

        let mid = open_order.menu;
        assert(menu_item == items0[0]);
        match query {
            Query::ExactInteger(n) => {
                crate::menu_query::lemma_items_numbered_sub(state.menu_items@, mid, n);
                assert(crate::menu_query::best_match(*state, mid, args@, menu_item));
                assert(state.menu_items@.contains(menu_item));
            },
            Query::FuzzyString(ref q) => {
                let mitems = crate::state::items_of_menu(state.menu_items@, mid);
                crate::state::lemma_items_of_menu_sub(state.menu_items@, mid);
                // the head of the ranking is a menu item that nothing
                // in the menu beats
                assert(items0.contains(menu_item));
                assert(items0.to_multiset().count(menu_item) > 0);
                assert(mitems.to_multiset().count(menu_item) > 0);
                assert(mitems.contains(menu_item));
                let im = choose|im: int| 0 <= im < mitems.len() && mitems[im] == menu_item;
                assert(state.menu_items@.contains(menu_item));
                assert forall|i: int| 0 <= i < mitems.len() implies crate::similarity::distance_of(
                    crate::menu_query::lower_of(args@),
                    crate::menu_query::lower_of(menu_item.name@),
                ) <= crate::similarity::distance_of(
                    crate::menu_query::lower_of(args@),
                    crate::menu_query::lower_of((mitems[i]).name@),
                ) by {
                    assert(mitems.contains(mitems[i]));
                    assert(mitems.to_multiset().count(mitems[i]) > 0);
                    assert(items0.to_multiset().count(mitems[i]) > 0);
                    assert(items0.contains(mitems[i]));
                    let ix = choose|ix: int| 0 <= ix < items0.len() && items0[ix] == mitems[i];
                };
                assert(crate::menu_query::best_match(*state, mid, args@, menu_item));
            },
        }
        // the chosen item belongs to the open order's menu, so the line
        // can be added
        let co = choose|co: int|
            0 <= co < state.orders@.len() && state.orders@[co] == open_order;
        let cm = choose|cm: int|
            0 <= cm < state.menu_items@.len() && state.menu_items@[cm] == menu_item;
        assert(state.valid_line_target(open_order.id, menu_item.id)) by {
            assert(0 <= co < state.orders.len() && 0 <= cm < state.menu_items.len()
                && state.orders[co].id == open_order.id && state.menu_items[cm].id
                == menu_item.id && state.menu_items[cm].menu == state.orders[co].menu);
        };
    }
    match state.add_order_item(open_order.id, user_name, menu_item.id) {
        Ok(()) => {},
        Err(e) => {
            return Err(Error::StateError(e));
        },
    }
    let mut chosen: Vec<MenuItem> = Vec::new();
    chosen.push(menu_item);
    Ok(Response::PlacedOrder { menu_items: chosen })
}

fn cmd_clear(state: &mut State, user_name: &str) -> (r: Result<Response, Error>)
    requires
        old(state).wf(),
    ensures
        final(state).wf(),
        final(state).restaurants@ == old(state).restaurants@,
        final(state).menus@ == old(state).menus@,
        final(state).menu_items@ == old(state).menu_items@,
        final(state).orders@ == old(state).orders@,
        final(state).associations@ == old(state).associations@,
        match r {
            Ok(Response::Clear) => {
                &&& old(state).has_open_order()
                &&& final(state).order_items@ == crate::state::remaining_after_clear(
                    old(state).order_items@,
                    the_open_order(*old(state)).id,
                    user_name@,
                )
            },
            Ok(_) => false,
            Err(Error::StateError(e)) => {
                &&& e == crate::state::Error::NoOpenOrder
                &&& !old(state).has_open_order()
                &&& final(state).order_items@ == old(state).order_items@
            },
            Err(_) => false,
        },
{
    let open_order = match state.demand_open_order() {
        Ok(o) => o,
        Err(e) => {
            return Err(Error::StateError(e));
        },
    };
    proof {
        crate::bill::lemma_open_unique(*state, open_order);
    }
    match state.clear_orders_for_person(open_order.id, user_name) {
        Ok(()) => Ok(Response::Clear),
        Err(e) => Err(Error::StateError(e)),
    }
}

/// Sizes of the groups, summed.
pub open spec fn groups_total(gs: Seq<(String, Vec<MenuItem>)>) -> int
    decreases gs.len(),
{
    if gs.len() == 0 {
        0
    } else {
        groups_total(gs.drop_last()) + gs.last().1@.len()
    }
}

/// Group totals never go negative.
proof fn lemma_groups_nonneg(gs: Seq<(String, Vec<MenuItem>)>)
    ensures
        groups_total(gs) >= 0,
    decreases gs.len(),
{
    if gs.len() > 0 {
        lemma_groups_nonneg(gs.drop_last());
    }
}

/// A group ends within the total of the whole sequence.
proof fn lemma_groups_prefix(gs: Seq<(String, Vec<MenuItem>)>, g: int)
    requires
        0 <= g < gs.len(),
    ensures
        groups_total(gs.subrange(0, g)) >= 0,
        groups_total(gs.subrange(0, g)) + gs[g].1@.len() <= groups_total(gs),
    decreases gs.len(),
{
    lemma_groups_nonneg(gs.subrange(0, g));
    if g == gs.len() - 1 {
        assert(gs.subrange(0, g) =~= gs.drop_last());
    } else {
        lemma_groups_prefix(gs.drop_last(), g);
        assert(gs.drop_last().subrange(0, g) =~= gs.subrange(0, g));
        assert(gs.drop_last()[g] == gs[g]);
    }
}

/// The groups partition the lines into maximal consecutive one-person
/// runs: concatenated in order they give back exactly the lines' menu
/// items, every group is nonempty and carries its items' person, and
/// consecutive groups belong to different persons.
pub open spec fn grouped(
    items: Seq<(MenuItem, crate::models::OrderItem)>,
    gs: Seq<(String, Vec<MenuItem>)>,
) -> bool {
    &&& groups_total(gs) == items.len()
    &&& forall|g: int| 0 <= g < gs.len() ==> (#[trigger] gs[g]).1@.len() >= 1
    &&& forall|g: int, t: int|
        0 <= g < gs.len() && 0 <= t < gs[g].1@.len() ==> {
            let pos = groups_total(gs.subrange(0, g)) + t;
            &&& (#[trigger] gs[g].1@[t]) == items[pos].0
            &&& gs[g].0@ == items[pos].1.person_name@
        }
    &&& forall|g: int| 0 <= g < gs.len() - 1 ==> (#[trigger] gs[g]).0@ != gs[g + 1].0@
}

/// Group the person-sorted lines into per-person item lists.
fn group_by_person(items: &Vec<(MenuItem, crate::models::OrderItem)>) -> (r: Vec<
    (String, Vec<MenuItem>),
>)
    ensures
        grouped(items@, r@),
{
    let mut out: Vec<(String, Vec<MenuItem>)> = Vec::new();
    let mut i: usize = 0;
    proof {
        assert(items@.subrange(0, 0) =~= Seq::<(MenuItem, crate::models::OrderItem)>::empty());
    }
    while i < items.len()
        invariant
            i <= items@.len(),
            groups_total(out@) == i,
            grouped(items@.subrange(0, i as int), out@),
            i < items@.len() && out@.len() > 0 ==> out@.last().0@ != items@[
                i as int].1.person_name@,
        decreases items@.len() - i,
    {
        let gs = i;
        let person = items[gs].1.person_name.clone();
        let mut group: Vec<MenuItem> = Vec::new();
        group.push(items[gs].0.clone());
        i = i + 1;
        while i < items.len() && str_eq(
            items[i].1.person_name.as_str(),
            person.as_str(),
        )
            invariant
                gs < i <= items@.len(),
                person@ == items@[gs as int].1.person_name@,
                group@.len() == i - gs,
                forall|t: int|
                    0 <= t < group@.len() ==> (#[trigger] group@[t]) == items@[gs + t].0
                        && items@[gs + t].1.person_name@ == person@,
            decreases items@.len() - i,
        {
            group.push(items[i].0.clone());
            i = i + 1;
        }
        let ghost out0 = out@;
        out.push((person, group));
        proof {
            assert(out@.drop_last() =~= out0);
            assert(out@.last().0@ == person@);
            assert(out@.last().1@ == group@);
            assert(groups_total(out@) == i);
            let pre = items@.subrange(0, i as int);
            assert forall|g: int, t: int|
                0 <= g < out@.len() && 0 <= t < out@[g].1@.len() implies {
                let pos = groups_total(out@.subrange(0, g)) + t;
                &&& (#[trigger] out@[g].1@[t]) == pre[pos].0
                &&& out@[g].0@ == pre[pos].1.person_name@
            } by {
                if g < out0.len() {
                    assert(out@.subrange(0, g) =~= out0.subrange(0, g));
                    assert(out@[g] == out0[g]);
                    lemma_groups_prefix(out0, g);
                    let pos = groups_total(out0.subrange(0, g)) + t;
                    assert(0 <= pos < gs);
                    assert(pre[pos] == items@.subrange(0, gs as int)[pos]);
                    assert(out0[g].1@[t] == items@.subrange(0, gs as int)[pos].0);
                    assert(out0[g].0@ == items@.subrange(0, gs as int)[pos].1.person_name@);
                    assert(out@[g].1@[t] == pre[pos].0);
                    assert(out@[g].0@ == pre[pos].1.person_name@);
                } else {
                    assert(g == out0.len());
                    assert(out@.subrange(0, g) =~= out0);
                    assert(groups_total(out@.subrange(0, g)) == gs);
                    assert(out@[g].1@ == group@);
                    assert(out@[g].1@[t] == group@[t]);
                    assert(group@[t] == items@[gs + t].0);
                    assert(0 <= gs + t < i);
                    assert(pre[gs + t] == items@[gs + t]);
                    assert(out@[g].1@[t] == pre[gs + t].0);
                    assert(out@[g].0@ == pre[gs + t].1.person_name@);
                }
            }
            assert forall|g: int| 0 <= g < out@.len() - 1 implies (#[trigger] out@[g]).0@
                != out@[g + 1].0@ by {
                if g + 1 < out0.len() {
                    assert(out@[g] == out0[g] && out@[g + 1] == out0[g + 1]);
                } else {
                    assert(out@[g] == out0[g]);
                    assert(out0.last() == out0[g]);
                }
            }
            assert(grouped(pre, out@));
        }
    }
    proof {
        assert(items@.subrange(0, items@.len() as int) =~= items@);
    }
    out
}

fn cmd_summary(state: &State) -> (r: Result<Response, Error>)
    requires
        state.wf(),
    ensures
        match r {
            Ok(Response::Summary { orders }) => {
                &&& state.has_open_order()
                &&& exists|v: Seq<(MenuItem, crate::models::OrderItem)>|
                    {
                        &&& #[trigger] v.to_multiset() == state.joined(
                            the_open_order(*state).id,
                        ).to_multiset()
                        &&& crate::state::sorted_pairs(v)
                        &&& grouped(v, orders@)
                    }
            },
            Ok(_) => false,
            Err(Error::StateError(e)) => {
                &&& e == crate::state::Error::NoOpenOrder
                &&& !state.has_open_order()
            },
            Err(_) => false,
        },
{
    let open_order = match state.demand_open_order() {
        Ok(o) => o,
        Err(e) => {
            return Err(Error::StateError(e));
        },
    };
    proof {
        crate::bill::lemma_open_unique(*state, open_order);
    }
    let items = match state.items_in_order(open_order.id) {
        Ok(v) => v,
        Err(e) => {
            return Err(Error::StateError(e));
        },
    };
    Ok(Response::Summary { orders: group_by_person(&items) })
}

/// Total price, in cents, of a list of menu items.
pub open spec fn menu_cents(s: Seq<MenuItem>) -> int
    decreases s.len(),
{
    if s.len() == 0 {
        0
    } else {
        menu_cents(s.drop_last()) + s.last().price_in_cents
    }
}

/// Sizes of the priced groups, summed.
pub open spec fn priced_total(gs: Seq<(String, Rational, Vec<MenuItem>)>) -> int
    decreases gs.len(),
{
    if gs.len() == 0 {
        0
    } else {
        priced_total(gs.drop_last()) + gs.last().2@.len()
    }
}

/// The priced summary partitions the lines into maximal one-person runs,
/// and each run carries the exact subtotal: the run's item prices plus
/// an even share of the overhead `ov` over all `gs.len()` runs.
pub open spec fn priced_groups(
    items: Seq<(MenuItem, crate::models::OrderItem)>,
    gs: Seq<(String, Rational, Vec<MenuItem>)>,
    ov: int,
) -> bool {
    &&& priced_total(gs) == items.len()
    &&& forall|g: int| 0 <= g < gs.len() ==> (#[trigger] gs[g]).2@.len() >= 1
    &&& forall|g: int, t: int|
        0 <= g < gs.len() && 0 <= t < gs[g].2@.len() ==> {
            let pos = priced_total(gs.subrange(0, g)) + t;
            &&& (#[trigger] gs[g].2@[t]) == items[pos].0
            &&& gs[g].0@ == items[pos].1.person_name@
        }
    &&& forall|g: int| 0 <= g < gs.len() - 1 ==> (#[trigger] gs[g]).0@ != gs[g + 1].0@
    &&& forall|g: int|
        0 <= g < gs.len() ==> (#[trigger] gs[g]).1.wf() && gs[g].1.eq_frac(
            gs.len() as int * menu_cents(gs[g].2@) + ov,
            100 * gs.len() as int,
        )
}

fn cmd_price(state: &State) -> (r: Result<Response, Error>)
    requires
        state.wf(),
    ensures
        match r {
            Ok(Response::Price { overhead, overhead_per_person, summary }) => {
                &&& state.has_open_order()
                &&& state.joined(the_open_order(*state).id).len() > 0
                &&& within_limits(*state)
                &&& overhead.wf()
                &&& overhead.eq_frac(the_open_order(*state).overhead_in_cents as int, 100)
                &&& summary@.len() >= 1
                &&& overhead_per_person.wf()
                &&& overhead_per_person.eq_frac(
                    the_open_order(*state).overhead_in_cents as int,
                    100 * summary@.len() as int,
                )
                &&& exists|v: Seq<(MenuItem, crate::models::OrderItem)>|
                    {
                        &&& #[trigger] v.to_multiset() == state.joined(
                            the_open_order(*state).id,
                        ).to_multiset()
                        &&& crate::state::sorted_pairs(v)
                        &&& priced_groups(
                            v,
                            summary@,
                            the_open_order(*state).overhead_in_cents as int,
                        )
                    }
            },
            Ok(_) => false,
            Err(Error::StateError(e)) => {
                &&& e == crate::state::Error::NoOpenOrder
                &&& !state.has_open_order()
            },
            Err(Error::DivisionByZero) => {
                &&& state.has_open_order()
                &&& state.joined(the_open_order(*state).id).len() == 0
            },
            Err(Error::AmountOutOfRange) => {
                &&& state.has_open_order()
                &&& state.joined(the_open_order(*state).id).len() > 0
                &&& !within_limits(*state)
            },
            Err(_) => false,
        },
{
    broadcast use vstd::seq_lib::group_to_multiset_ensures;

    let open_order = match state.demand_open_order() {
        Ok(o) => o,
        Err(e) => {
            return Err(Error::StateError(e));
        },
    };
    proof {
        crate::bill::lemma_open_unique(*state, open_order);
    }
    let items = match state.items_in_order(open_order.id) {
        Ok(v) => v,
        Err(e) => {
            return Err(Error::StateError(e));
        },
    };
    let ghost joined = state.joined(open_order.id);
    proof {
        assert(items@.len() == joined.len()) by {
            assert(items@.to_multiset().len() == items@.len());
            assert(joined.to_multiset().len() == joined.len());
        };
    }
    let n = items.len();
    if n == 0 {
        return Err(Error::DivisionByZero);
    }
    // machine limits, as for the bill itself
    if n > 1000000 {
        return Err(Error::AmountOutOfRange);
    }
    let ov: i32 = open_order.overhead_in_cents;
    if ov > 1000000 || ov < -1000000 {
        return Err(Error::AmountOutOfRange);
    }
    let mut i: usize = 0;
    while i < n
        invariant
            state.wf(),
            state.has_open_order(),
            i <= n,
            1 <= n == items@.len(),
            joined.len() == n,
            joined == state.joined(open_order.id),
            the_open_order(*state) == open_order,
            items@.to_multiset() == joined.to_multiset(),
            forall|j: int|
                0 <= j < i ==> -1000000 <= (#[trigger] items@[j]).0.price_in_cents <= 1000000,
        decreases n - i,
    {
        let p = items[i].0.price_in_cents;
        if p > 1000000 || p < -1000000 {
            proof {
                broadcast use vstd::seq_lib::group_to_multiset_ensures;

                assert(items@.contains(items@[i as int]));
                assert(items@.to_multiset().count(items@[i as int]) > 0);
                assert(joined.to_multiset().count(items@[i as int]) > 0);
                assert(joined.contains(items@[i as int]));
                let jk = choose|jk: int| 0 <= jk < joined.len() && joined[jk] == items@[i as int];
                assert(!within_limits(*state));
            }
            return Err(Error::AmountOutOfRange);
        }
        i = i + 1;
    }
    proof {
        assert forall|k: int|
            0 <= k < joined.len() implies -1000000 <= (#[trigger] joined[k]).0.price_in_cents
            <= 1000000 by {
            assert(joined.contains(joined[k]));
            assert(joined.to_multiset().count(joined[k]) > 0);
            assert(items@.to_multiset().count(joined[k]) > 0);
            assert(items@.contains(joined[k]));
            let ik = choose|ik: int| 0 <= ik < items@.len() && items@[ik] == joined[k];
        }
        assert(within_limits(*state));
    }
    let groups = group_by_person(&items);
    proof {
        if groups@.len() == 0 {
            assert(groups_total(groups@) == 0);
        }
    }
    let k_count = groups.len();
    if k_count > 1000000 {
        proof {
            lemma_groups_at_most(groups@);
            assert(false);
        }
        return Err(Error::AmountOutOfRange);
    }
    let overhead = Rational::from_cents(ov as i64);
    let persons = Rational::from_int(k_count as i64);
    proof {
        lemma_eq_frac_is_reduced(overhead, ov as int, 100);
        crate::arith::lemma_reduced_frac(ov as int, 100);
        assert(1 <= overhead.den <= 100);
        assert(-1000000 <= overhead.num <= 1000000) by {
            assert(crate::arith::abs_int(overhead.num as int) <= crate::arith::abs_int(
                ov as int,
            ));
        };
        if groups@.len() == 0 {
            assert(groups_total(groups@) == 0);
        }
        assert(1 <= overhead.den as int * k_count as int <= 100000000) by (nonlinear_arith)
            requires
                1 <= overhead.den <= 100,
                1 <= k_count <= 1000000,
        ;
        // the division by the person count cannot leave the machine range
        crate::rational::lemma_i64_pair_fits(
            overhead.num as int,
            overhead.den as int * k_count as int,
        );
    }
    let overhead_per_person = match overhead.div(&persons) {
        Ok(x) => x,
        Err(_) => {
            proof {
                assert(false);
            }
            return Err(Error::DivisionByZero);
        },
    };
    proof {
        assert(overhead_per_person.eq_frac(ov as int, 100 * k_count as int)) by (nonlinear_arith)
            requires
                overhead_per_person.num * (overhead.den as int * k_count as int) == overhead.num
                    * 1 * overhead_per_person.den,
                overhead.num * 100 == ov * overhead.den,
                overhead.den >= 1,
                overhead_per_person.den >= 1,
                k_count >= 1,
        ;
        lemma_eq_frac_is_reduced(overhead_per_person, ov as int, 100 * k_count as int);
    }
    let mut summary: Vec<(String, Rational, Vec<MenuItem>)> = Vec::new();
    let mut g: usize = 0;
    proof {
        assert(groups@.subrange(0, 0) =~= Seq::<(String, Vec<MenuItem>)>::empty());
        assert(summary@.subrange(0, 0) =~= Seq::<(String, Rational, Vec<MenuItem>)>::empty());
    }
    while g < groups.len()
        invariant
            g <= groups@.len(),
            1 <= k_count == groups@.len() <= 1000000,
            grouped(items@, groups@),
            n == items@.len() <= 1000000,
            forall|j: int|
                0 <= j < n ==> -1000000 <= (#[trigger] items@[j]).0.price_in_cents <= 1000000,
            -1000000 <= ov <= 1000000,
            overhead_per_person.wf(),
            overhead_per_person.eq_frac(ov as int, 100 * k_count as int),
            summary@.len() == g,
            forall|e: int|
                0 <= e < g ==> (#[trigger] summary@[e]).0@ == groups@[e].0@ && summary@[e].2@
                    == groups@[e].1@,
            forall|e: int|
                0 <= e < g ==> (#[trigger] summary@[e]).1.wf() && summary@[e].1.eq_frac(
                    k_count as int * menu_cents(summary@[e].2@) + ov,
                    100 * k_count as int,
                ),
        decreases groups@.len() - g,
    {
        let group_items = &groups[g].1;
        proof {
            lemma_groups_prefix(groups@, g as int);
            assert(group_items@.len() <= n) by {
                lemma_groups_nonneg(groups@.subrange(0, g as int));
            };
            // every item of the group is a line's menu item, so its price
            // is in range
            assert forall|t: int|
                0 <= t < group_items@.len() implies -1000000 <= (
                #[trigger] group_items@[t]).price_in_cents <= 1000000 by {
                let pos = groups_total(groups@.subrange(0, g as int)) + t;
                assert(group_items@[t] == items@[pos].0);
            }
        }
        let mut total_cents: i64 = 0;
        let mut t: usize = 0;
        proof {
            assert(group_items@.subrange(0, 0) =~= Seq::<MenuItem>::empty());
        }
        while t < group_items.len()
            invariant
                t <= group_items@.len(),
                group_items@.len() <= 1000000,
                forall|q: int|
                    0 <= q < group_items@.len() ==> -1000000 <= (
                    #[trigger] group_items@[q]).price_in_cents <= 1000000,
                total_cents as int == menu_cents(group_items@.subrange(0, t as int)),
                -1000000 * (t as int) <= total_cents as int <= 1000000 * (t as int),
            decreases group_items@.len() - t,
        {
            let ghost pre = group_items@.subrange(0, t as int);
            let ghost post = group_items@.subrange(0, t + 1);
            proof {
                assert(post.drop_last() =~= pre);
                assert(post.last() == group_items@[t as int]);
            }
            total_cents = total_cents + group_items[t].price_in_cents as i64;
            t = t + 1;
        }
        proof {
            assert(group_items@.subrange(0, group_items@.len() as int) =~= group_items@);
        }
        let food = Rational::from_cents(total_cents);
        proof {
            // the subtotal stays within the machine fraction
            lemma_eq_frac_is_reduced(food, total_cents as int, 100);
            let cn = food.num * overhead_per_person.den + overhead_per_person.num * food.den;
            let cd = food.den * overhead_per_person.den;
            let kc = k_count as int;
            assert(food.num * (100 * kc) == (kc * (total_cents as int)) * food.den)
                by (nonlinear_arith)
                requires
                    food.num * 100 == (total_cents as int) * food.den,
            ;
            crate::bill::lemma_frac_add_common(
                food.num as int,
                food.den as int,
                overhead_per_person.num as int,
                overhead_per_person.den as int,
                kc * (total_cents as int),
                ov as int,
                100 * kc,
            );
            assert(cn * (100 * kc) == (kc * (total_cents as int) + ov) * cd);
            assert(cd >= 1) by (nonlinear_arith)
                requires
                    cd == food.den * overhead_per_person.den,
                    food.den >= 1,
                    overhead_per_person.den >= 1,
            ;
            assert(-2000000000000000000 <= kc * (total_cents as int) + ov
                <= 2000000000000000000) by (nonlinear_arith)
                requires
                    1 <= kc <= 1000000,
                    -1000000000000 <= total_cents as int <= 1000000000000,
                    -1000000 <= ov <= 1000000,
            ;
            crate::rational::lemma_i64_pair_fits(kc * (total_cents as int) + ov, 100 * kc);
            crate::bill::lemma_reduced_same_value(cn, cd, kc * (total_cents as int) + ov, 100 * kc);
        }
        let subtotal = match food.add(&overhead_per_person) {
            Ok(x) => x,
            Err(_) => {
                proof {
                    assert(false);
                }
                return Err(Error::AmountOutOfRange);
            },
        };
        let mut copy: Vec<MenuItem> = Vec::new();
        let mut c: usize = 0;
        while c < group_items.len()
            invariant
                c <= group_items@.len(),
                copy@ =~= group_items@.subrange(0, c as int),
            decreases group_items@.len() - c,
        {
            copy.push(group_items[c].clone());
            proof {
                assert(copy@ =~= group_items@.subrange(0, c + 1));
            }
            c = c + 1;
        }
        proof {
            assert(group_items@.subrange(0, group_items@.len() as int) =~= group_items@);
        }
        let ghost summary0 = summary@;
        summary.push((groups[g].0.clone(), subtotal, copy));
        proof {
            assert(summary@.drop_last() =~= summary0);
            assert(subtotal.eq_frac(
                k_count as int * menu_cents(group_items@) + ov,
                100 * k_count as int,
            )) by (nonlinear_arith)
                requires
                    subtotal.num * (food.den * overhead_per_person.den) == (food.num
                        * overhead_per_person.den + overhead_per_person.num * food.den)
                        * subtotal.den,
                    (food.num * overhead_per_person.den + overhead_per_person.num * food.den) * (
                    100 * k_count as int) == (k_count as int * menu_cents(group_items@) + ov) * (
                    food.den * overhead_per_person.den),
                    food.den >= 1,
                    overhead_per_person.den >= 1,
            ;
        }
        g = g + 1;
    }
    proof {
        // the priced summary mirrors the grouping
        assert(groups@.subrange(0, groups@.len() as int) =~= groups@);
        lemma_priced_matches(items@, groups@, summary@, ov as int);
        assert(summary@.len() >= 1) by {
            if groups@.len() == 0 {
                assert(groups_total(groups@) == 0);
            }
        };
    }
    Ok(
        Response::Price {
            overhead,
            overhead_per_person,
            summary,
        },
    )
}

/// A group sequence with nonempty groups has at most one group per line.
proof fn lemma_groups_at_most(gs: Seq<(String, Vec<MenuItem>)>)
    requires
        forall|g: int| 0 <= g < gs.len() ==> (#[trigger] gs[g]).1@.len() >= 1,
    ensures
        groups_total(gs) >= gs.len(),
    decreases gs.len(),
{
    if gs.len() > 0 {
        assert(forall|g: int|
            0 <= g < gs.drop_last().len() ==> (#[trigger] gs.drop_last()[g]) == gs[g]);
        lemma_groups_at_most(gs.drop_last());
    }
}

/// A summary whose entries carry the groups' persons, items, and exact
/// subtotals satisfies the priced-group predicate.
proof fn lemma_priced_matches(
    items: Seq<(MenuItem, crate::models::OrderItem)>,
    gs: Seq<(String, Vec<MenuItem>)>,
    ps: Seq<(String, Rational, Vec<MenuItem>)>,
    ov: int,
)
    requires
        grouped(items, gs),
        ps.len() == gs.len(),
        forall|e: int|
            0 <= e < ps.len() ==> (#[trigger] ps[e]).0@ == gs[e].0@ && ps[e].2@ == gs[e].1@,
        forall|e: int|
            0 <= e < ps.len() ==> (#[trigger] ps[e]).1.wf() && ps[e].1.eq_frac(
                ps.len() as int * menu_cents(ps[e].2@) + ov,
                100 * ps.len() as int,
            ),
    ensures
        priced_groups(items, ps, ov),
{
    lemma_priced_total_eq(gs, ps);
    assert forall|g: int, t: int|
        0 <= g < ps.len() && 0 <= t < ps[g].2@.len() implies {
        let pos = priced_total(ps.subrange(0, g)) + t;
        &&& (#[trigger] ps[g].2@[t]) == items[pos].0
        &&& ps[g].0@ == items[pos].1.person_name@
    } by {
        assert(forall|e: int|
            0 <= e < g ==> (#[trigger] ps.subrange(0, g)[e]).0@ == gs.subrange(0, g)[e].0@
                && ps.subrange(0, g)[e].2@ == gs.subrange(0, g)[e].1@);
        lemma_priced_total_eq(gs.subrange(0, g), ps.subrange(0, g));
        assert(gs[g].1@[t] == items[groups_total(gs.subrange(0, g)) + t].0);
    }
}

/// Pointwise equal group sizes give equal totals.
proof fn lemma_priced_total_eq(gs: Seq<(String, Vec<MenuItem>)>, ps: Seq<(String, Rational, Vec<MenuItem>)>)
    requires
        ps.len() == gs.len(),
        forall|e: int| 0 <= e < ps.len() ==> (#[trigger] ps[e]).2@ == gs[e].1@,
    ensures
        priced_total(ps) == groups_total(gs),
    decreases gs.len(),
{
    if gs.len() > 0 {
        assert(forall|e: int|
            0 <= e < ps.drop_last().len() ==> (#[trigger] ps.drop_last()[e]) == ps[e]
                && gs.drop_last()[e] == gs[e]);
        lemma_priced_total_eq(gs.drop_last(), ps.drop_last());
    }
}

/// One past the end of the token starting at `i`: the next space, or the
/// end of the string.
pub open spec fn token_end(s: Seq<char>, i: int) -> int
    decreases s.len() - i,
{
    if i < 0 || i >= s.len() {
        s.len() as int
    } else if s[i] == ' ' {
        i
    } else {
        token_end(s, i + 1)
    }
}

/// A token ends at or after where it starts, within the string.
proof fn lemma_token_end(s: Seq<char>, i: int)
    requires
        0 <= i <= s.len(),
    ensures
        i <= token_end(s, i) <= s.len(),
    decreases s.len() - i,
{
    if i < s.len() && s[i] != ' ' {
        lemma_token_end(s, i + 1);
    }
}

/// The space-separated tokens of `s`, from position `i` on.
pub open spec fn tokens_of(s: Seq<char>, i: int) -> Seq<Seq<char>>
    decreases s.len() - i, (if 0 <= i < s.len() && s[i] == ' ' { 1int } else { 0int })
        via tokens_of_decreases
{
    if i < 0 || i >= s.len() {
        Seq::empty()
    } else if s[i] == ' ' {
        tokens_of(s, i + 1)
    } else {
        seq![s.subrange(i, token_end(s, i))] + tokens_of(s, token_end(s, i))
    }
}

#[via_fn]
proof fn tokens_of_decreases(s: Seq<char>, i: int) {
    if 0 <= i < s.len() && s[i] != ' ' {
        lemma_token_end(s, i + 1);
    }
}

/// Split free text into whitespace-separated tokens.
fn split_tokens(s: &str) -> (r: Vec<String>)
    ensures
        r@.len() == tokens_of(s@, 0).len(),
        forall|k: int| 0 <= k < r@.len() ==> (#[trigger] r@[k])@ == tokens_of(s@, 0)[k],
{
    let len = s.unicode_len();
    let mut out: Vec<String> = Vec::new();
    let mut i: usize = 0;
    while i < len
        invariant
            i <= len,
            len == s@.len(),
            tokens_of(s@, 0) == views_of(out@) + tokens_of(s@, i as int),
        decreases len - i,
    {
        if s.get_char(i) == ' ' {
            i = i + 1;
        } else {
            let start = i;
            while i < len && s.get_char(i) != ' '
                invariant
                    start <= i <= len,
                    len == s@.len(),
                    token_end(s@, start as int) == token_end(s@, i as int),
                decreases len - i,
            {
                i = i + 1;
            }
            proof {
                assert(token_end(s@, start as int) == i as int);
            }
            let ghost out0 = out@;
            out.push(s.substring_char(start, i).to_owned());
            proof {
                assert(views_of(out@) =~= views_of(out0).push(
                    s@.subrange(start as int, i as int),
                ));
                assert(views_of(out0).push(s@.subrange(start as int, i as int)) + tokens_of(
                    s@,
                    i as int,
                ) =~= views_of(out0) + (seq![s@.subrange(start as int, i as int)] + tokens_of(
                    s@,
                    i as int,
                )));
            }
        }
    }
    proof {
        assert(tokens_of(s@, len as int) =~= Seq::<Seq<char>>::empty());
        assert(views_of(out@) + tokens_of(s@, len as int) =~= views_of(out@));
    }
    out
}

/// The character views of a token list.
pub open spec fn views_of(ts: Seq<String>) -> Seq<Seq<char>> {
    Seq::new(ts.len(), |k: int| ts[k]@)
}

fn cmd_associate(state: &mut State, args: &str, user_name: &str) -> (r: Result<Response, Error>)
    requires
        old(state).wf(),
    ensures
        final(state).wf(),
        final(state).restaurants@ == old(state).restaurants@,
        final(state).menus@ == old(state).menus@,
        final(state).menu_items@ == old(state).menu_items@,
        final(state).orders@ == old(state).orders@,
        final(state).order_items@ == old(state).order_items@,
        match r {
            Ok(Response::Associations { associations }) => {
                &&& args@.len() == 0
                &&& associations@ == old(state).associations@
                &&& final(state).associations@ == old(state).associations@
            },
            Ok(Response::NewAssociation { user_name: u, sharebill_account: a }) => {
                &&& args@.len() > 0
                &&& (tokens_of(args@, 0).len() == 1 || tokens_of(args@, 0).len() == 2)
                &&& (tokens_of(args@, 0).len() == 1 ==> u@ == user_name@ && a@ == tokens_of(
                    args@,
                    0,
                )[0])
                &&& (tokens_of(args@, 0).len() == 2 ==> u@ == tokens_of(args@, 0)[0] && a@
                    == tokens_of(args@, 0)[1])
                &&& final(state).assoc_of(u@) == Some(a@)
                &&& forall|n: Seq<char>|
                    n != u@ ==> final(state).assoc_of(n) == old(state).assoc_of(n)
            },
            Ok(_) => false,
            Err(Error::InputError) => {
                &&& args@.len() > 0
                &&& tokens_of(args@, 0).len() != 1
                &&& tokens_of(args@, 0).len() != 2
                &&& final(state).associations@ == old(state).associations@
            },
            Err(_) => false,
        },
{
    if args.is_empty() {
        return Ok(Response::Associations { associations: state.all_associations() });
    }
    let mut tokens = split_tokens(args);
    if tokens.len() == 1 {
        let account = tokens.remove(0);
        match state.set_association(user_name, account.as_str()) {
            Ok(()) => Ok(
                Response::NewAssociation {
                    user_name: user_name.to_owned(),
                    sharebill_account: account,
                },
            ),
            Err(e) => Err(Error::StateError(e)),
        }
    } else if tokens.len() == 2 {
        let name = tokens.remove(0);
        let account = tokens.remove(0);
        match state.set_association(name.as_str(), account.as_str()) {
            Ok(()) => Ok(
                Response::NewAssociation { user_name: name, sharebill_account: account },
            ),
            Err(e) => Err(Error::StateError(e)),
        }
    } else {
        Err(Error::InputError)
    }
}

fn cmd_overhead(state: &mut State, args: &str) -> (r: Result<Response, Error>)
    requires
        old(state).wf(),
    ensures
        final(state).wf(),
        final(state).restaurants@ == old(state).restaurants@,
        final(state).menus@ == old(state).menus@,
        final(state).menu_items@ == old(state).menu_items@,
        final(state).order_items@ == old(state).order_items@,
        final(state).associations@ == old(state).associations@,
        match r {
            Ok(Response::Overhead { overhead_in_cents }) => {
                &&& args@.len() == 0
                &&& old(state).has_open_order()
                &&& overhead_in_cents == the_open_order(*old(state)).overhead_in_cents
                &&& final(state).orders@ == old(state).orders@
            },
            Ok(Response::OverheadSet { prev_overhead_in_cents, new_overhead_in_cents }) => {
                &&& args@.len() > 0
                &&& old(state).has_open_order()
                &&& crate::text::cents_of(args@) == Some(new_overhead_in_cents as int)
                &&& prev_overhead_in_cents == the_open_order(*old(state)).overhead_in_cents
                &&& exists|k: int|
                    crate::state::overhead_set_at(
                        old(state).orders@,
                        final(state).orders@,
                        k,
                        the_open_order(*old(state)).id,
                        new_overhead_in_cents,
                    )
            },
            Ok(_) => false,
            Err(Error::StateError(e)) => {
                &&& e == crate::state::Error::NoOpenOrder
                &&& !old(state).has_open_order()
                &&& final(state).orders@ == old(state).orders@
            },
            Err(Error::InputError) => {
                &&& args@.len() > 0
                &&& old(state).has_open_order()
                &&& (match crate::text::cents_of(args@) {
                    Some(v) => v < i32::MIN || v > i32::MAX,
                    None => true,
                })
                &&& final(state).orders@ == old(state).orders@
            },
            Err(_) => false,
        },
{
    let open_order = match state.demand_open_order() {
        Ok(o) => o,
        Err(e) => {
            return Err(Error::StateError(e));
        },
    };
    proof {
        crate::bill::lemma_open_unique(*state, open_order);
    }
    if args.is_empty() {
        return Ok(Response::Overhead { overhead_in_cents: open_order.overhead_in_cents });
    }
    let new_overhead_in_cents = match parse_cents(args) {
        Some(v) => v,
        None => {
            return Err(Error::InputError);
        },
    };
    proof {
        // the open order exists, so the overwrite lands on it
        let k = choose|k: int|
            0 <= k < state.orders@.len() && state.orders@[k] == open_order;
        assert(state.orders@[k].id == open_order.id);
    }
    match state.set_overhead(open_order.id, new_overhead_in_cents) {
        Ok(()) => Ok(
            Response::OverheadSet {
                prev_overhead_in_cents: open_order.overhead_in_cents,
                new_overhead_in_cents,
            },
        ),
        Err(e) => Err(Error::StateError(e)),
    }
}

/// Finish a suggestion once the shell has fetched the ledger balances.
pub fn suggest_with_balances(state: &State, balances: &Vec<(String, Rational)>) -> (r: Result<
    Response,
    Error,
>)
    requires
        state.wf(),
        forall|k: int| 0 <= k < balances@.len() ==> (#[trigger] balances@[k]).1.wf(),
    ensures
        match r {
            Ok(Response::Suggest { balances: rows }) => {
                &&& bill_ready(*state)
                &&& exists|debits: Seq<(String, Rational)>|
                    {
                        &&& #[trigger] bill_spec(*state, debits)
                        &&& projections_fit(debits, balances@)
                        &&& suggestion_ok(debits, balances@, rows@)
                    }
            },
            Ok(_) => false,
            Err(Error::StateError(e)) => {
                &&& e == crate::state::Error::NoOpenOrder
                &&& !state.has_open_order()
            },
            Err(Error::DivisionByZero) => {
                &&& state.has_open_order()
                &&& state.joined(the_open_order(*state).id).len() == 0
            },
            Err(Error::MissingAssociation(p)) => {
                &&& state.has_open_order()
                &&& order_persons(order_lines(*state)).contains(p@)
                &&& state.assoc_of(p@) is None
            },
            Err(Error::AmountOutOfRange) => {
                ||| {
                    &&& state.has_open_order()
                    &&& state.joined(the_open_order(*state).id).len() > 0
                    &&& assoc_complete(*state)
                    &&& !within_limits(*state)
                }
                ||| exists|debits: Seq<(String, Rational)>|
                    #[trigger] bill_spec(*state, debits) && !projections_fit(debits, balances@)
            },
            Err(_) => false,
        },
{
    let debits = match generate_bill(state) {
        Ok(b) => b,
        Err(e) => {
            return Err(e);
        },
    };
    match suggest_rows(&debits, balances) {
        Ok(rows) => Ok(Response::Suggest { balances: rows }),
        Err(e) => Err(e),
    }
}

/// Finish a settlement the shell has posted successfully: close the
/// order and report the posting.
pub fn settlement_posted(state: &mut State, url: String, now: i32) -> (r: Result<Response, Error>)
    requires
        old(state).wf(),
    ensures
        final(state).wf(),
        final(state).restaurants@ == old(state).restaurants@,
        final(state).menus@ == old(state).menus@,
        final(state).menu_items@ == old(state).menu_items@,
        final(state).order_items@ == old(state).order_items@,
        final(state).associations@ == old(state).associations@,
        match r {
            Ok(Response::Sharebill { url: posted }) => {
                &&& posted == url
                &&& old(state).has_open_order()
                &&& exists|k: int|
                    crate::state::orders_closed_at(
                        old(state).orders@,
                        final(state).orders@,
                        k,
                        now,
                    )
            },
            Ok(_) => false,
            Err(Error::StateError(e)) => {
                &&& e == crate::state::Error::NoOpenOrder
                &&& !old(state).has_open_order()
                &&& final(state).orders@ == old(state).orders@
            },
            Err(_) => false,
        },
{
    match state.close_current_order(now) {
        Ok(()) => Ok(Response::Sharebill { url }),
        Err(e) => Err(Error::StateError(e)),
    }
}

/// The command words the dispatcher understands, aliases included.
pub open spec fn known_command(c: Seq<char>) -> bool {
    ||| c == "associate"@
    ||| c == "clear"@
    ||| c == "cancel"@
    ||| c == "reset"@
    ||| c == "closeorder"@
    ||| c == "help"@
    ||| c == "openorder"@
    ||| c == "open"@
    ||| c == "order"@
    ||| c == "overhead"@
    ||| c == "tips"@
    ||| c == "price"@
    ||| c == "restaurants"@
    ||| c == "search"@
    ||| c == "sharebill"@
    ||| c == "sudo"@
    ||| c == "suggest"@
    ||| c == "summary"@
}

/// Execute one command.  Pure commands finish here; `suggest` and
/// `sharebill` return what they need from the ledger instead.  Each word
/// dispatches to its handler, whose contract states the outcome in full;
/// this contract pins the dispatch itself: which response or ledger
/// exchange each word can produce, that read-only commands leave the
/// state untouched, and that an unknown word is answered, never an error.
#[verifier::rlimit(100)]
pub fn exec_cmd(state: &mut State, cmd: &str, args: &str, user_name: &str, base_url: &str, now: i32)
    -> (r: Result<CommandOutcome, Error>)
    requires
        old(state).wf(),
    ensures
        final(state).wf(),
        final(state).restaurants@ == old(state).restaurants@,
        final(state).menus@ == old(state).menus@,
        final(state).menu_items@ == old(state).menu_items@,
        !known_command(cmd@) ==> (match r {
            Ok(CommandOutcome::Done(Response::NotUnderstood { command, args: a })) => {
                &&& command@ == cmd@
                &&& a@ == args@
                &&& final(state).orders@ == old(state).orders@ && final(state).order_items@ == old(
            state,
        ).order_items@ && final(state).associations@ == old(state).associations@
            },
            _ => false,
        }),
        cmd@ == "help"@ ==> (r matches Ok(CommandOutcome::Done(Response::Help)) && final(state).orders@ == old(state).orders@ && final(state).order_items@ == old(
            state,
        ).order_items@ && final(state).associations@ == old(state).associations@),
        cmd@ == "restaurants"@ ==> final(state).orders@ == old(state).orders@ && final(state).order_items@ == old(
            state,
        ).order_items@ && final(state).associations@ == old(state).associations@ && (match r {
            Ok(CommandOutcome::Done(Response::Restaurants { restaurants })) => restaurants@
                == old(state).restaurants@,
            _ => false,
        }),
        cmd@ == "search"@ ==> final(state).orders@ == old(state).orders@ && final(state).order_items@ == old(
            state,
        ).order_items@ && final(state).associations@ == old(state).associations@ && (r matches Ok(
            CommandOutcome::Done(Response::SearchResults { .. }),
        ) || r is Err),
        cmd@ == "summary"@ ==> final(state).orders@ == old(state).orders@ && final(state).order_items@ == old(
            state,
        ).order_items@ && final(state).associations@ == old(state).associations@ && (r matches Ok(
            CommandOutcome::Done(Response::Summary { .. }),
        ) || r is Err),
        cmd@ == "price"@ ==> final(state).orders@ == old(state).orders@ && final(state).order_items@ == old(
            state,
        ).order_items@ && final(state).associations@ == old(state).associations@ && (r matches Ok(
            CommandOutcome::Done(Response::Price { .. }),
        ) || r is Err),
        cmd@ == "suggest"@ ==> final(state).orders@ == old(state).orders@ && final(state).order_items@ == old(
            state,
        ).order_items@ && final(state).associations@ == old(state).associations@ && (match r {
            Ok(CommandOutcome::NeedBalances) => bill_ready(*old(state)) && exists|
                b: Seq<(String, Rational)>,
            | #[trigger] bill_spec(*old(state), b),
            Ok(_) => false,
            Err(_) => true,
        }),
        cmd@ == "sharebill"@ ==> final(state).orders@ == old(state).orders@ && final(state).order_items@ == old(
            state,
        ).order_items@ && final(state).associations@ == old(state).associations@ && (match r {
            Ok(CommandOutcome::NeedPost(plan)) => {
                &&& bill_ready(*old(state))
                &&& bill_spec(*old(state), plan.debits@)
                &&& plan.credits@.len() == 1
                &&& crate::arith::frac_eq(
                    crate::bill::bill_sum(plan.credits@).0,
                    crate::bill::bill_sum(plan.credits@).1,
                    crate::bill::bill_sum(plan.debits@).0,
                    crate::bill::bill_sum(plan.debits@).1,
                )
                &&& (args@.len() > 0 ==> plan.credits@[0].0@ == args@)
                &&& (args@.len() == 0 ==> old(state).assoc_of(user_name@) == Some(
                    plan.credits@[0].0@,
                ))
            },
            Ok(_) => false,
            Err(_) => true,
        }),
        (cmd@ == "closeorder"@ || cmd@ == "clear"@ || cmd@ == "cancel"@ || cmd@ == "reset"@
            || cmd@ == "overhead"@ || cmd@ == "tips"@ || cmd@ == "associate"@ || cmd@
            == "openorder"@ || cmd@ == "open"@ || cmd@ == "order"@) ==> (match r {
            Ok(CommandOutcome::Done(_)) => true,
            Ok(_) => false,
            Err(_) => true,
        }),
    decreases args@.len(),
{
    proof {
        reveal_strlit("associate");
        reveal_strlit("clear");
        reveal_strlit("cancel");
        reveal_strlit("reset");
        reveal_strlit("closeorder");
        reveal_strlit("help");
        reveal_strlit("openorder");
        reveal_strlit("open");
        reveal_strlit("order");
        reveal_strlit("overhead");
        reveal_strlit("tips");
        reveal_strlit("price");
        reveal_strlit("restaurants");
        reveal_strlit("search");
        reveal_strlit("sharebill");
        reveal_strlit("sudo");
        reveal_strlit("suggest");
        reveal_strlit("summary");
        // the command words are pairwise distinct
        assert("associate"@.len() == 9 && "clear"@.len() == 5 && "cancel"@.len() == 6
            && "reset"@.len() == 5 && "closeorder"@.len() == 10 && "help"@.len() == 4
            && "openorder"@.len() == 9 && "open"@.len() == 4 && "order"@.len() == 5
            && "overhead"@.len() == 8 && "tips"@.len() == 4 && "price"@.len() == 5
            && "restaurants"@.len() == 11 && "search"@.len() == 6 && "sharebill"@.len() == 9
            && "sudo"@.len() == 4 && "suggest"@.len() == 7 && "summary"@.len() == 7);
        assert("help"@[0] == 'h' && "open"@[0] == 'o' && "tips"@[0] == 't' && "sudo"@[0] == 's');
        assert("clear"@[0] == 'c' && "reset"@[0] == 'r' && "order"@[0] == 'o' && "price"@[0]
            == 'p');
        assert("cancel"@[0] == 'c' && "search"@[0] == 's');
        assert("suggest"@[2] == 'g' && "summary"@[2] == 'm');
        assert("associate"@[0] == 'a' && "openorder"@[0] == 'o' && "sharebill"@[0] == 's');
    }
    if str_eq(cmd, "associate") {
        match cmd_associate(state, args, user_name) {
            Ok(x) => Ok(CommandOutcome::Done(x)),
            Err(e) => Err(e),
        }
    } else if str_eq(cmd, "clear") || str_eq(cmd, "cancel") || str_eq(cmd, "reset") {
        match cmd_clear(state, user_name) {
            Ok(x) => Ok(CommandOutcome::Done(x)),
            Err(e) => Err(e),
        }
    } else if str_eq(cmd, "closeorder") {
        match cmd_closeorder(state, now) {
            Ok(x) => Ok(CommandOutcome::Done(x)),
            Err(e) => Err(e),
        }
    } else if str_eq(cmd, "help") {
        Ok(CommandOutcome::Done(Response::Help))
    } else if str_eq(cmd, "openorder") || str_eq(cmd, "open") {
        match cmd_openorder(state, args, base_url, now) {
            Ok(x) => Ok(CommandOutcome::Done(x)),
            Err(e) => Err(e),
        }
    } else if str_eq(cmd, "order") {
        match cmd_order(state, args, user_name) {
            Ok(x) => Ok(CommandOutcome::Done(x)),
            Err(e) => Err(e),
        }
    } else if str_eq(cmd, "overhead") || str_eq(cmd, "tips") {
        match cmd_overhead(state, args) {
            Ok(x) => Ok(CommandOutcome::Done(x)),
            Err(e) => Err(e),
        }
    } else if str_eq(cmd, "price") {
        match cmd_price(state) {
            Ok(x) => Ok(CommandOutcome::Done(x)),
            Err(e) => Err(e),
        }
    } else if str_eq(cmd, "restaurants") {
        match cmd_restaurants(state) {
            Ok(x) => Ok(CommandOutcome::Done(x)),
            Err(e) => Err(e),
        }
    } else if str_eq(cmd, "search") {
        match cmd_search(state, args) {
            Ok(x) => Ok(CommandOutcome::Done(x)),
            Err(e) => Err(e),
        }
    } else if str_eq(cmd, "sharebill") {
        match settle_plan(state, args, user_name) {
            Ok(plan) => {
                proof {
                    // one credit equal in value to the sum of the debits
                    let c = plan.credits@[0].1;
                    let bs = crate::bill::bill_sum(plan.debits@);
                    let t = crate::bill::order_total_cents(*state) + the_open_order(
                        *state,
                    ).overhead_in_cents;
                    assert(plan.credits@.drop_last() =~= Seq::<(String, Rational)>::empty());
                    assert(crate::bill::bill_sum(plan.credits@.drop_last()) == (0int, 1int));
                    assert(plan.credits@.last().1 == c);
                    assert(crate::bill::bill_sum(plan.credits@) == crate::bill::frac_add_p(
                        (0int, 1int),
                        (c.num as int, c.den as int),
                    ));
                    assert(0int * (c.den as int) + (c.num as int) * 1int == c.num as int)
                        by (nonlinear_arith);
                    assert(1int * (c.den as int) == c.den as int) by (nonlinear_arith);
                    assert(crate::bill::bill_sum(plan.credits@).0 == c.num as int);
                    assert(crate::bill::bill_sum(plan.credits@).1 == c.den as int);
                    crate::bill::lemma_bill_sum_den_pos(plan.debits@);
                    assert(c.num * bs.1 == bs.0 * c.den) by (nonlinear_arith)
                        requires
                            c.num * 100 == t * c.den,
                            bs.0 * 100 == t * bs.1,
                            bs.1 >= 1,
                            c.den >= 1,
                    ;
                }
                Ok(CommandOutcome::NeedPost(plan))
            },
            Err(e) => Err(e),
        }
    } else if str_eq(cmd, "sudo") {
        // run the rest of the line as another user
        let len = args.unicode_len();
        let sp1 = match find_char_in(args, ' ') {
            Some(i) => i,
            None => {
                return Err(Error::MissingArgument("command".to_owned()));
            },
        };
        let sudo_user = args.substring_char(0, sp1);
        let rest = args.substring_char(sp1 + 1, len);
        let rest_len = rest.unicode_len();
        proof {
            crate::text::lemma_find_char(args@, ' ');
            assert(rest@ =~= args@.subrange(sp1 + 1, args@.len() as int));
        }
        let (sudo_cmd, sudo_args) = match find_char_in(rest, ' ') {
            Some(sp2) => {
                proof {
                    crate::text::lemma_find_char(rest@, ' ');
                }
                let c = rest.substring_char(0, sp2);
                let a = rest.substring_char(sp2 + 1, rest_len);
                proof {
                    assert(a@ =~= rest@.subrange(sp2 + 1, rest@.len() as int));
                }
                (c, a)
            },
            None => (rest, ""),
        };
        proof {
            reveal_strlit("");
        }
        exec_cmd(state, sudo_cmd, sudo_args, sudo_user, base_url, now)
    } else if str_eq(cmd, "suggest") {
        match generate_bill(state) {
            Ok(_) => Ok(CommandOutcome::NeedBalances),
            Err(e) => Err(e),
        }
    } else if str_eq(cmd, "summary") {
        match cmd_summary(state) {
            Ok(x) => Ok(CommandOutcome::Done(x)),
            Err(e) => Err(e),
        }
    } else {
        Ok(
            CommandOutcome::Done(
                Response::NotUnderstood { command: cmd.to_owned(), args: args.to_owned() },
            ),
        )
    }
}

} // verus!

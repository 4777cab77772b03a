//! The order lifecycle and catalog state.
//!
//! One `State` value owns every table: restaurants, menus, menu items,
//! orders, order lines, and account associations.  The well-formedness
//! invariant carries the rules the rest of the system relies on: ids are
//! unique and below the next-id counters, at most one order is open at
//! any time, and every order line points at an existing order and at a
//! menu item of that order's menu.  Callers hand in the clock reading, so
//! every operation is a function of its arguments.

use crate::models::{
    Menu, MenuId, MenuItem, MenuItemId, Order, OrderId, OrderItem, OrderItemId, Restaurant,
    RestaurantId, SharebillAssociation,
};
use crate::strorder::{lemma_lex_antisym, lemma_lex_total, lemma_lex_trans, lex_le, str_eq, str_le};
use vstd::prelude::*;
use vstd::string::StringExecFns;

verus! {

/// A failed state operation.
#[derive(Clone, Copy, Debug, PartialEq, Eq, Structural)]
pub enum Error {
    /// The backing store cannot take another row (id space exhausted).
    StoreError,
    /// An order is already open; it is carried for reporting.
    OrderAlreadyOpen(Order),
    /// Defensive guard: the order to close was already closed.
    OrderAlreadyClosed(Order),
    /// No order is open.
    NoOpenOrder,
    /// A referenced row does not exist.
    NotFound,
}

/// The whole persistent state.
pub struct State {
    pub restaurants: Vec<Restaurant>,
    pub menus: Vec<Menu>,
    pub menu_items: Vec<MenuItem>,
    pub orders: Vec<Order>,
    pub order_items: Vec<OrderItem>,
    pub associations: Vec<SharebillAssociation>,
    pub next_restaurant_id: i32,
    pub next_menu_id: i32,
    pub next_menu_item_id: i32,
    pub next_order_id: i32,
    pub next_order_item_id: i32,
}

impl State {
    /// Every stored id lies below its table's next-id counter.
    pub open spec fn ids_fresh(self) -> bool {
        &&& forall|i: int|
            0 <= i < self.restaurants.len() ==> (#[trigger] self.restaurants[i].id).0
                < self.next_restaurant_id
        &&& forall|i: int|
            0 <= i < self.menus.len() ==> (#[trigger] self.menus[i].id).0 < self.next_menu_id
        &&& forall|i: int|
            0 <= i < self.menu_items.len() ==> (#[trigger] self.menu_items[i].id).0
                < self.next_menu_item_id
        &&& forall|i: int|
            0 <= i < self.orders.len() ==> (#[trigger] self.orders[i].id).0 < self.next_order_id
        &&& forall|i: int|
            0 <= i < self.order_items.len() ==> (#[trigger] self.order_items[i].id).0
                < self.next_order_item_id
    }

    /// No id occurs twice within its table.
    pub open spec fn ids_unique(self) -> bool {
        &&& forall|i: int, j: int|
            0 <= i < j < self.restaurants.len() ==> (#[trigger] self.restaurants[i].id)
                != (#[trigger] self.restaurants[j].id)
        &&& forall|i: int, j: int|
            0 <= i < j < self.menus.len() ==> (#[trigger] self.menus[i].id)
                != (#[trigger] self.menus[j].id)
        &&& forall|i: int, j: int|
            0 <= i < j < self.menu_items.len() ==> (#[trigger] self.menu_items[i].id)
                != (#[trigger] self.menu_items[j].id)
        &&& forall|i: int, j: int|
            0 <= i < j < self.orders.len() ==> (#[trigger] self.orders[i].id)
                != (#[trigger] self.orders[j].id)
        &&& forall|i: int, j: int|
            0 <= i < j < self.order_items.len() ==> (#[trigger] self.order_items[i].id)
                != (#[trigger] self.order_items[j].id)
    }

    /// At most one order is open across the whole system.
    pub open spec fn single_open(self) -> bool {
        forall|i: int, j: int|
            0 <= i < j < self.orders.len() ==> !((#[trigger] self.orders[i].closed) is None
                && (#[trigger] self.orders[j].closed) is None)
    }

    /// An order line points at an existing order and at a menu item that
    /// belongs to that order's menu.
    pub open spec fn item_ref_ok(self, oi: OrderItem) -> bool {
        exists|oj: int, mj: int|
            {
                &&& 0 <= oj < self.orders.len()
                &&& 0 <= mj < self.menu_items.len()
                &&& (#[trigger] self.orders[oj]).id == oi.order
                &&& (#[trigger] self.menu_items[mj]).id == oi.menu_item
                &&& self.menu_items[mj].menu == self.orders[oj].menu
            }
    }

    /// All order lines are properly linked.
    pub open spec fn items_linked(self) -> bool {
        forall|i: int|
            0 <= i < self.order_items.len() ==> self.item_ref_ok(
                #[trigger] self.order_items[i],
            )
    }

    /// Associations are sorted by chat name, without duplicate names.
    pub open spec fn assoc_sorted(self) -> bool {
        forall|i: int, j: int|
            0 <= i < j < self.associations.len() ==> lex_le(
                (#[trigger] self.associations[i]).slack_name@,
                (#[trigger] self.associations[j]).slack_name@,
            ) && self.associations[i].slack_name@ != self.associations[j].slack_name@
    }

    /// The id counters start at one and never go below it.
    pub open spec fn counters_ok(self) -> bool {
        &&& self.next_restaurant_id >= 1
        &&& self.next_menu_id >= 1
        &&& self.next_menu_item_id >= 1
        &&& self.next_order_id >= 1
        &&& self.next_order_item_id >= 1
    }

    /// The state invariant.
    pub open spec fn wf(self) -> bool {
        &&& self.counters_ok()
        &&& self.ids_fresh()
        &&& self.ids_unique()
        &&& self.single_open()
        &&& self.items_linked()
        &&& self.assoc_sorted()
    }

    /// The open order, if any.
    pub open spec fn open_order_at(self, i: int) -> bool {
        0 <= i < self.orders.len() && self.orders[i].closed is None
    }

    pub open spec fn has_open_order(self) -> bool {
        exists|i: int| self.open_order_at(i)
    }

    /// The account associated with a chat name, if any.
    pub open spec fn assoc_of(self, name: Seq<char>) -> Option<Seq<char>> {
        if exists|i: int|
            0 <= i < self.associations.len() && (#[trigger] self.associations[i]).slack_name@
                == name {
            let i = choose|i: int|
                0 <= i < self.associations.len() && (#[trigger] self.associations[i]).slack_name@
                    == name;
            Some(self.associations[i].sharebill_account@)
        } else {
            None
        }
    }

    /// An empty store.
    pub fn new() -> (s: State)
        ensures
            s.wf(),
            s.restaurants@ =~= Seq::<Restaurant>::empty(),
            s.menus@ =~= Seq::<Menu>::empty(),
            s.menu_items@ =~= Seq::<MenuItem>::empty(),
            s.orders@ =~= Seq::<Order>::empty(),
            s.order_items@ =~= Seq::<OrderItem>::empty(),
            s.associations@ =~= Seq::<SharebillAssociation>::empty(),
    {
        State {
            restaurants: Vec::new(),
            menus: Vec::new(),
            menu_items: Vec::new(),
            orders: Vec::new(),
            order_items: Vec::new(),
            associations: Vec::new(),
            next_restaurant_id: 1,
            next_menu_id: 1,
            next_menu_item_id: 1,
            next_order_id: 1,
            next_order_item_id: 1,
        }
    }

    /// Register a restaurant under the given name and return its fresh id.
    pub fn create_restaurant(&mut self, name: &str) -> (r: Result<RestaurantId, Error>)
        requires
            old(self).wf(),
        ensures
            final(self).wf(),
            match r {
                Ok(id) => {
                    &&& old(self).next_restaurant_id < i32::MAX
                    &&& id.0 == old(self).next_restaurant_id
                    &&& final(self).restaurants.len() == old(self).restaurants.len() + 1
                    &&& final(self).restaurants@.last().id == id
                    &&& final(self).restaurants@.last().name@ == name@
                    &&& final(self).restaurants@.drop_last() == old(self).restaurants@
                },
                Err(e) => {
                    &&& e == Error::StoreError
                    &&& old(self).next_restaurant_id == i32::MAX
                    &&& final(self).restaurants@ == old(self).restaurants@
                },
            },
            final(self).menus@ == old(self).menus@,
            final(self).menu_items@ == old(self).menu_items@,
            final(self).orders@ == old(self).orders@,
            final(self).order_items@ == old(self).order_items@,
            final(self).associations@ == old(self).associations@,
    {
        if self.next_restaurant_id == i32::MAX {
            return Err(Error::StoreError);
        }
        let id = RestaurantId(self.next_restaurant_id);
        self.restaurants.push(Restaurant { id, name: name.to_owned() });
        self.next_restaurant_id = self.next_restaurant_id + 1;
        proof {
            assert(self.restaurants@.drop_last() =~= old(self).restaurants@);
            lemma_frame_items(*old(self), *self);
        }
        Ok(id)
    }

    /// All known restaurants, in table order.
    pub fn restaurants(&self) -> (r: Vec<Restaurant>)
        ensures
            r@ == self.restaurants@,
    {
        let mut out: Vec<Restaurant> = Vec::new();
        let mut i: usize = 0;
        while i < self.restaurants.len()
            invariant
                i <= self.restaurants.len(),
                out@ =~= self.restaurants@.subrange(0, i as int),
            decreases self.restaurants.len() - i,
        {
            out.push(self.restaurants[i].clone());
            proof {
                assert(out@ =~= self.restaurants@.subrange(0, i + 1));
            }
            i = i + 1;
        }
        proof {
            assert(self.restaurants@.subrange(0, self.restaurants.len() as int)
                =~= self.restaurants@);
        }
        out
    }

    /// The restaurant with the given id, if any.
    pub fn restaurant(&self, restaurant_id: RestaurantId) -> (r: Option<Restaurant>)
        ensures
            match r {
                Some(x) => self.restaurants@.contains(x) && x.id == restaurant_id,
                None => forall|i: int|
                    0 <= i < self.restaurants.len() ==> (#[trigger] self.restaurants[i].id)
                        != restaurant_id,
            },
    {
        let mut i: usize = 0;
        while i < self.restaurants.len()
            invariant
                i <= self.restaurants.len(),
                forall|j: int|
                    0 <= j < i ==> (#[trigger] self.restaurants[j].id) != restaurant_id,
            decreases self.restaurants.len() - i,
        {
            if self.restaurants[i].id.0 == restaurant_id.0 {
                let x = self.restaurants[i].clone();
                proof {
                    assert(self.restaurants@.contains(x)) by {
                        assert(self.restaurants@[i as int] == x);
                    };
                }
                return Some(x);
            }
            i = i + 1;
        }
        None
    }

    /// The first restaurant carrying the given name, if any.
    pub fn restaurant_by_name(&self, query_name: &str) -> (r: Option<Restaurant>)
        ensures
            match r {
                Some(x) => {
                    &&& self.restaurants@.contains(x)
                    &&& x.name@ == query_name@
                },
                None => forall|i: int|
                    0 <= i < self.restaurants.len() ==> (#[trigger] self.restaurants[i].name)@
                        != query_name@,
            },
    {
        let mut i: usize = 0;
        while i < self.restaurants.len()
            invariant
                i <= self.restaurants.len(),
                forall|j: int|
                    0 <= j < i ==> (#[trigger] self.restaurants[j].name)@ != query_name@,
            decreases self.restaurants.len() - i,
        {
            if str_eq(self.restaurants[i].name.as_str(), query_name) {
                let x = self.restaurants[i].clone();
                proof {
                    assert(self.restaurants@.contains(x)) by {
                        assert(self.restaurants@[i as int] == x);
                    };
                }
                return Some(x);
            }
            i = i + 1;
        }
        None
    }

    /// Record an association from a chat name to a billing account; a
    /// second write for the same name replaces the first.
    pub fn set_association(&mut self, slack_name: &str, sharebill_account: &str) -> (r: Result<
        (),
        Error,
    >)
        requires
            old(self).wf(),
        ensures
            final(self).wf(),
            r is Ok,
            final(self).assoc_of(slack_name@) == Some(sharebill_account@),
            forall|n: Seq<char>|
                n != slack_name@ ==> final(self).assoc_of(n) == old(self).assoc_of(n),
            final(self).restaurants@ == old(self).restaurants@,
            final(self).menus@ == old(self).menus@,
            final(self).menu_items@ == old(self).menu_items@,
            final(self).orders@ == old(self).orders@,
            final(self).order_items@ == old(self).order_items@,
    {
        let mut i: usize = 0;
        while i < self.associations.len()
            invariant
                i <= self.associations.len(),
                forall|j: int|
                    0 <= j < i ==> lex_le(
                        (#[trigger] self.associations[j]).slack_name@,
                        slack_name@,
                    ) && self.associations[j].slack_name@ != slack_name@,
                self == old(self),
                old(self).wf(),
            decreases self.associations.len() - i,
        {
            let here = &self.associations[i];
            if str_eq(here.slack_name.as_str(), slack_name) {
                // replace in place
                let repl = SharebillAssociation {
                    slack_name: slack_name.to_owned(),
                    sharebill_account: sharebill_account.to_owned(),
                };
                self.associations.set(i, repl);
                proof {
                    lemma_assoc_update(*old(self), *self, i as int, slack_name@,
                        sharebill_account@);
                    lemma_frame_items(*old(self), *self);
                }
                return Ok(());
            }
            let cmp = str_le(here.slack_name.as_str(), slack_name);
            if !cmp {
                // insert before the first larger name
                proof {
                    lemma_lex_total(self.associations[i as int].slack_name@, slack_name@);
                }
                let repl = SharebillAssociation {
                    slack_name: slack_name.to_owned(),
                    sharebill_account: sharebill_account.to_owned(),
                };
                self.associations.insert(i, repl);
                proof {
                    lemma_assoc_insert(*old(self), *self, i as int, slack_name@,
                        sharebill_account@);
                    lemma_frame_items(*old(self), *self);
                }
                return Ok(());
            }
            i = i + 1;
        }
        let repl = SharebillAssociation {
            slack_name: slack_name.to_owned(),
            sharebill_account: sharebill_account.to_owned(),
        };
        let end = self.associations.len();
        self.associations.insert(end, repl);
        proof {
            lemma_assoc_insert(*old(self), *self, end as int, slack_name@, sharebill_account@);
            lemma_frame_items(*old(self), *self);
        }
        Ok(())
    }

    /// All associations, sorted ascending by chat name.
    pub fn all_associations(&self) -> (r: Vec<SharebillAssociation>)
        ensures
            r@ == self.associations@,
    {
        let mut out: Vec<SharebillAssociation> = Vec::new();
        let mut i: usize = 0;
        while i < self.associations.len()
            invariant
                i <= self.associations.len(),
                out@ =~= self.associations@.subrange(0, i as int),
            decreases self.associations.len() - i,
        {
            out.push(self.associations[i].clone());
            proof {
                assert(out@ =~= self.associations@.subrange(0, i + 1));
            }
            i = i + 1;
        }
        proof {
            assert(self.associations@.subrange(0, self.associations.len() as int)
                =~= self.associations@);
        }
        out
    }
}

/// Menus sorted by import time, newest first.
pub open spec fn menus_sorted_desc(s: Seq<Menu>) -> bool {
    forall|i: int, j: int| 0 <= i < j < s.len() ==> (#[trigger] s[i]).imported >= (#[trigger] s[j]).imported
}

/// The menus belonging to one restaurant, in table order.
pub open spec fn menus_of(s: Seq<Menu>, rid: RestaurantId) -> Seq<Menu>
    decreases s.len(),
{
    if s.len() == 0 {
        Seq::empty()
    } else {
        let p = menus_of(s.drop_last(), rid);
        if s.last().restaurant == rid {
            p.push(s.last())
        } else {
            p
        }
    }
}

/// The menu items belonging to one menu, in table order.
pub open spec fn items_of_menu(s: Seq<MenuItem>, mid: MenuId) -> Seq<MenuItem>
    decreases s.len(),
{
    if s.len() == 0 {
        Seq::empty()
    } else {
        let p = items_of_menu(s.drop_last(), mid);
        if s.last().menu == mid {
            p.push(s.last())
        } else {
            p
        }
    }
}

/// `post` is `pre` with the open order at position `k` closed at `now`.
pub open spec fn orders_closed_at(pre: Seq<Order>, post: Seq<Order>, k: int, now: i32) -> bool {
    &&& 0 <= k < pre.len()
    &&& pre[k].closed is None
    &&& post.len() == pre.len()
    &&& post[k].id == pre[k].id
    &&& post[k].menu == pre[k].menu
    &&& post[k].overhead_in_cents == pre[k].overhead_in_cents
    &&& post[k].opened == pre[k].opened
    &&& post[k].closed == Some(now)
    &&& forall|j: int| 0 <= j < pre.len() && j != k ==> (#[trigger] post[j]) == pre[j]
}

/// `post` is `pre` with the overhead of the order at position `k`, the
/// one carrying `oid`, overwritten to `cents`.
pub open spec fn overhead_set_at(
    pre: Seq<Order>,
    post: Seq<Order>,
    k: int,
    oid: OrderId,
    cents: i32,
) -> bool {
    &&& 0 <= k < pre.len()
    &&& pre[k].id == oid
    &&& post.len() == pre.len()
    &&& post[k].id == pre[k].id
    &&& post[k].menu == pre[k].menu
    &&& post[k].overhead_in_cents == cents
    &&& post[k].opened == pre[k].opened
    &&& post[k].closed == pre[k].closed
    &&& forall|j: int| 0 <= j < pre.len() && j != k ==> (#[trigger] post[j]) == pre[j]
}

impl State {
    /// The menus of one restaurant, newest import first.
    pub fn menus_for_restaurant(&self, restaurant_id: RestaurantId) -> (r: Vec<Menu>)
        ensures
            r@.to_multiset() == menus_of(self.menus@, restaurant_id).to_multiset(),
            menus_sorted_desc(r@),
    {
        let mut out: Vec<Menu> = Vec::new();
        let mut i: usize = 0;
        proof {
            assert(self.menus@.subrange(0, 0) =~= Seq::<Menu>::empty());
            assert(menus_of(self.menus@.subrange(0, 0), restaurant_id) =~= out@);
        }
        while i < self.menus.len()
            invariant
                i <= self.menus.len(),
                out@.to_multiset() == menus_of(
                    self.menus@.subrange(0, i as int),
                    restaurant_id,
                ).to_multiset(),
                menus_sorted_desc(out@),
            decreases self.menus.len() - i,
        {
            let ghost pre = self.menus@.subrange(0, i as int);
            let ghost post = self.menus@.subrange(0, i + 1);
            proof {
                assert(post.drop_last() =~= pre);
                assert(post.last() == self.menus@[i as int]);
            }
            let m = self.menus[i];
            if m.restaurant.0 == restaurant_id.0 {
                proof {
                    assert(menus_of(post, restaurant_id) == menus_of(pre, restaurant_id).push(
                        m,
                    ));
                }
                // insert into the descending list, after larger-or-equal stamps
                let mut j: usize = 0;
                while j < out.len() && out[j].imported >= m.imported
                    invariant
                        j <= out.len(),
                        forall|k: int| 0 <= k < j ==> (#[trigger] out[k]).imported >= m.imported,
                    decreases out.len() - j,
                {
                    j = j + 1;
                }
                let ghost out0 = out@;
                out.insert(j, m);
                proof {
                    vstd::seq_lib::to_multiset_insert(out0, j as int, m);
                    broadcast use vstd::seq_lib::group_to_multiset_ensures;

                    assert(menus_of(pre, restaurant_id).push(m).to_multiset() =~= menus_of(
                        pre,
                        restaurant_id,
                    ).to_multiset().insert(m));
                    assert(out@.to_multiset() == menus_of(post, restaurant_id).to_multiset());
                    assert forall|a: int, b: int| 0 <= a < b < out.len() implies (
                    #[trigger] out[a]).imported >= (#[trigger] out[b]).imported by {
                        if a < j && b == j {
                        } else if a == j && b > j {
                            assert(out[b] == out0[b - 1]);
                        } else if b < j || a > j {
                            assert(out[a] == out0[if a < j {
                                a
                            } else {
                                a - 1
                            }]);
                        } else {
                            assert(out[a] == out0[a]);
                            assert(out[b] == out0[b - 1]);
                        }
                    }
                }
            } else {
                proof {
                    assert(menus_of(post, restaurant_id) == menus_of(pre, restaurant_id));
                }
            }
            i = i + 1;
        }
        proof {
            assert(self.menus@.subrange(0, self.menus.len() as int) =~= self.menus@);
        }
        out
    }

    /// The most recently imported menu of a restaurant.
    pub fn current_menu_for_restaurant(&self, restaurant_id: RestaurantId) -> (r: Result<
        Menu,
        Error,
    >)
        ensures
            match r {
                Ok(m) => {
                    &&& self.menus@.contains(m)
                    &&& m.restaurant == restaurant_id
                    &&& forall|i: int|
                        0 <= i < self.menus.len() && (#[trigger] self.menus[i]).restaurant
                            == restaurant_id ==> self.menus[i].imported <= m.imported
                },
                Err(e) => {
                    &&& e == Error::NotFound
                    &&& forall|i: int|
                        0 <= i < self.menus.len() ==> (#[trigger] self.menus[i]).restaurant
                            != restaurant_id
                },
            },
    {
        let mut best: Option<Menu> = None;
        let mut i: usize = 0;
        while i < self.menus.len()
            invariant
                i <= self.menus.len(),
                match best {
                    Some(b) => {
                        &&& self.menus@.contains(b)
                        &&& b.restaurant == restaurant_id
                        &&& forall|j: int|
                            0 <= j < i && (#[trigger] self.menus[j]).restaurant == restaurant_id
                                ==> self.menus[j].imported <= b.imported
                    },
                    None => forall|j: int|
                        0 <= j < i ==> (#[trigger] self.menus[j]).restaurant != restaurant_id,
                },
            decreases self.menus.len() - i,
        {
            let m = self.menus[i];
            if m.restaurant.0 == restaurant_id.0 {
                match best {
                    Some(b) => {
                        if m.imported > b.imported {
                            best = Some(m);
                        }
                    },
                    None => {
                        best = Some(m);
                    },
                }
                proof {
                    assert(self.menus@.contains(self.menus@[i as int]));
                }
            }
            i = i + 1;
        }
        match best {
            Some(b) => Ok(b),
            None => Err(Error::NotFound),
        }
    }

    /// The menu with the given id, if any.
    pub fn menu_object(&self, menu_id: MenuId) -> (r: Option<Menu>)
        ensures
            match r {
                Some(m) => self.menus@.contains(m) && m.id == menu_id,
                None => forall|i: int|
                    0 <= i < self.menus.len() ==> (#[trigger] self.menus[i]).id != menu_id,
            },
    {
        let mut i: usize = 0;
        while i < self.menus.len()
            invariant
                i <= self.menus.len(),
                forall|j: int| 0 <= j < i ==> (#[trigger] self.menus[j]).id != menu_id,
            decreases self.menus.len() - i,
        {
            if self.menus[i].id.0 == menu_id.0 {
                proof {
                    assert(self.menus@.contains(self.menus@[i as int]));
                }
                return Some(self.menus[i]);
            }
            i = i + 1;
        }
        None
    }

    /// The items of a menu, in table order.
    pub fn menu(&self, menu_id: MenuId) -> (r: Vec<MenuItem>)
        ensures
            r@ == items_of_menu(self.menu_items@, menu_id),
    {
        let mut out: Vec<MenuItem> = Vec::new();
        let mut i: usize = 0;
        proof {
            assert(self.menu_items@.subrange(0, 0) =~= Seq::<MenuItem>::empty());
            assert(items_of_menu(self.menu_items@.subrange(0, 0), menu_id) =~= out@);
        }
        while i < self.menu_items.len()
            invariant
                i <= self.menu_items.len(),
                out@ == items_of_menu(self.menu_items@.subrange(0, i as int), menu_id),
            decreases self.menu_items.len() - i,
        {
            let ghost pre = self.menu_items@.subrange(0, i as int);
            let ghost post = self.menu_items@.subrange(0, i + 1);
            proof {
                assert(post.drop_last() =~= pre);
                assert(post.last() == self.menu_items@[i as int]);
            }
            if self.menu_items[i].menu.0 == menu_id.0 {
                out.push(self.menu_items[i].clone());
                proof {
                    assert(items_of_menu(post, menu_id) == items_of_menu(pre, menu_id).push(
                        self.menu_items@[i as int],
                    ));
                }
            } else {
                proof {
                    assert(items_of_menu(post, menu_id) == items_of_menu(pre, menu_id));
                }
            }
            i = i + 1;
        }
        proof {
            assert(self.menu_items@.subrange(0, self.menu_items.len() as int)
                =~= self.menu_items@);
        }
        out
    }

    /// Import a new menu for a restaurant from `(number, name, price in
    /// cents)` records, stamped with the given time.
    pub fn ingest_menu(&mut self, restaurant_id: RestaurantId, entries: &Vec<(i32, String, i32)>, now: i32)
        -> (r: Result<MenuId, Error>)
        requires
            old(self).wf(),
        ensures
            final(self).wf(),
            match r {
                Ok(mid) => {
                    &&& final(self).menus@.len() == old(self).menus@.len() + 1
                    &&& final(self).menus@.drop_last() == old(self).menus@
                    &&& final(self).menus@.last().id == mid
                    &&& final(self).menus@.last().restaurant == restaurant_id
                    &&& final(self).menus@.last().imported == now
                    &&& final(self).menu_items@.len() == old(self).menu_items@.len()
                        + entries@.len()
                    &&& forall|k: int|
                        0 <= k < old(self).menu_items@.len() ==> (#[trigger] final(self).menu_items@[k]) == old(self).menu_items@[k]
                    &&& forall|k: int|
                        0 <= k < entries@.len() ==> {
                            let it = #[trigger] final(self).menu_items@[old(self).menu_items@.len() + k];
                            &&& it.menu == mid
                            &&& it.number == entries@[k].0
                            &&& it.name@ == entries@[k].1@
                            &&& it.price_in_cents == entries@[k].2
                        }
                },
                Err(e) => {
                    &&& e == Error::StoreError
                    &&& final(self).menus@ == old(self).menus@
                    &&& final(self).menu_items@ == old(self).menu_items@
                },
            },
            final(self).restaurants@ == old(self).restaurants@,
            final(self).orders@ == old(self).orders@,
            final(self).order_items@ == old(self).order_items@,
            final(self).associations@ == old(self).associations@,
    {
        if self.next_menu_id == i32::MAX {
            return Err(Error::StoreError);
        }
        if entries.len() >= (i32::MAX - self.next_menu_item_id) as usize {
            return Err(Error::StoreError);
        }
        let mid = MenuId(self.next_menu_id);
        self.menus.push(Menu { id: mid, restaurant: restaurant_id, imported: now });
        self.next_menu_id = self.next_menu_id + 1;
        proof {
            assert(self.menus@.drop_last() =~= old(self).menus@);
        }
        let ghost base = self.menu_items@.len() as int;
        let mut k: usize = 0;
        while k < entries.len()
            invariant
                k <= entries.len(),
                old(self).wf(),
                self.restaurants@ == old(self).restaurants@,
                self.orders@ == old(self).orders@,
                self.order_items@ == old(self).order_items@,
                self.associations@ == old(self).associations@,
                self.menus@ == old(self).menus@.push(
                    Menu { id: mid, restaurant: restaurant_id, imported: now },
                ),
                mid.0 < self.next_menu_id,
                self.next_restaurant_id == old(self).next_restaurant_id,
                self.next_menu_id == old(self).next_menu_id + 1,
                self.next_order_id == old(self).next_order_id,
                self.next_order_item_id == old(self).next_order_item_id,
                forall|j: int|
                    0 <= j < old(self).menus@.len() ==> (#[trigger] self.menus@[j]) == old(self).menus@[j],
                base == old(self).menu_items@.len(),
                self.menu_items@.len() == base + k,
                forall|j: int|
                    0 <= j < base ==> (#[trigger] self.menu_items@[j]) == old(self).menu_items@[j],
                forall|j: int|
                    0 <= j < k ==> {
                        let it = #[trigger] self.menu_items@[base + j];
                        &&& it.menu == mid
                        &&& it.number == entries@[j].0
                        &&& it.name@ == entries@[j].1@
                        &&& it.price_in_cents == entries@[j].2
                    },
                forall|j: int|
                    0 <= j < self.menu_items@.len() ==> (#[trigger] self.menu_items@[j].id).0
                        < self.next_menu_item_id,
                forall|a: int, b: int|
                    0 <= a < b < self.menu_items@.len() ==> (#[trigger] self.menu_items@[a].id)
                        != (#[trigger] self.menu_items@[b].id),
                self.next_menu_item_id >= old(self).next_menu_item_id,
                self.next_menu_item_id < i32::MAX
                    || k == entries.len(),
                entries.len() - k <= i32::MAX - self.next_menu_item_id,
            decreases entries.len() - k,
        {
            let iid = MenuItemId(self.next_menu_item_id);
            self.menu_items.push(
                MenuItem {
                    id: iid,
                    menu: mid,
                    number: entries[k].0,
                    name: entries[k].1.clone(),
                    price_in_cents: entries[k].2,
                },
            );
            self.next_menu_item_id = self.next_menu_item_id + 1;
            k = k + 1;
        }
        proof {
            lemma_frame_items(*old(self), *self);
        }
        Ok(mid)
    }

    /// The currently open order, if one exists.
    pub fn current_open_order(&self) -> (r: Option<Order>)
        ensures
            match r {
                Some(o) => self.orders@.contains(o) && o.closed is None,
                None => !self.has_open_order(),
            },
    {
        let mut i: usize = 0;
        while i < self.orders.len()
            invariant
                i <= self.orders.len(),
                forall|j: int| 0 <= j < i ==> (#[trigger] self.orders[j]).closed is Some,
            decreases self.orders.len() - i,
        {
            if self.orders[i].closed.is_none() {
                proof {
                    assert(self.orders@.contains(self.orders@[i as int]));
                }
                return Some(self.orders[i]);
            }
            i = i + 1;
        }
        proof {
            if self.has_open_order() {
                let j = choose|j: int| self.open_order_at(j);
                assert(self.orders@[j].closed is Some);
            }
        }
        None
    }

    /// The open order, or `NoOpenOrder`.
    pub fn demand_open_order(&self) -> (r: Result<Order, Error>)
        ensures
            match r {
                Ok(o) => self.orders@.contains(o) && o.closed is None,
                Err(e) => e == Error::NoOpenOrder && !self.has_open_order(),
            },
    {
        match self.current_open_order() {
            Some(o) => Ok(o),
            None => Err(Error::NoOpenOrder),
        }
    }

    /// Open a new order against a menu: fails with `OrderAlreadyOpen`
    /// while any order is still open, otherwise appends an order with
    /// overhead zero, opened now, not closed.
    pub fn create_order(&mut self, menu_id: MenuId, now: i32) -> (r: Result<(), Error>)
        requires
            old(self).wf(),
        ensures
            final(self).wf(),
            match r {
                Ok(()) => {
                    &&& !old(self).has_open_order()
                    &&& final(self).orders@.len() == old(self).orders@.len() + 1
                    &&& final(self).orders@.drop_last() == old(self).orders@
                    &&& final(self).orders@.last().menu == menu_id
                    &&& final(self).orders@.last().overhead_in_cents == 0
                    &&& final(self).orders@.last().opened == now
                    &&& final(self).orders@.last().closed is None
                },
                Err(Error::OrderAlreadyOpen(o)) => {
                    &&& old(self).has_open_order()
                    &&& old(self).orders@.contains(o)
                    &&& o.closed is None
                    &&& final(self).orders@ == old(self).orders@
                },
                Err(e) => {
                    &&& e == Error::StoreError
                    &&& !old(self).has_open_order()
                    &&& old(self).next_order_id == i32::MAX
                    &&& final(self).orders@ == old(self).orders@
                },
            },
            final(self).restaurants@ == old(self).restaurants@,
            final(self).menus@ == old(self).menus@,
            final(self).menu_items@ == old(self).menu_items@,
            final(self).order_items@ == old(self).order_items@,
            final(self).associations@ == old(self).associations@,
    {
        match self.current_open_order() {
            Some(current) => {
                proof {
                    let idx = choose|idx: int|
                        0 <= idx < self.orders@.len() && self.orders@[idx] == current;
                    assert(self.open_order_at(idx));
                }
                Err(Error::OrderAlreadyOpen(current))
            },
            None => {
                if self.next_order_id == i32::MAX {
                    return Err(Error::StoreError);
                }
                let id = OrderId(self.next_order_id);
                self.orders.push(
                    Order {
                        id,
                        menu: menu_id,
                        overhead_in_cents: 0,
                        opened: now,
                        closed: None,
                    },
                );
                self.next_order_id = self.next_order_id + 1;
                proof {
                    assert(self.orders@.drop_last() =~= old(self).orders@);
                    assert forall|i: int, j: int|
                        0 <= i < j < self.orders.len() implies !((
                        #[trigger] self.orders[i].closed) is None && (
                        #[trigger] self.orders[j].closed) is None) by {
                        if j < self.orders.len() - 1 {
                            assert(old(self).single_open());
                        } else {
                            assert(!old(self).open_order_at(i));
                        }
                    }
                    lemma_frame_items(*old(self), *self);
                }
                Ok(())
            },
        }
    }

    /// Close the open order, stamping it with the given time; fails with
    /// `NoOpenOrder` when none is open.
    pub fn close_current_order(&mut self, now: i32) -> (r: Result<(), Error>)
        requires
            old(self).wf(),
        ensures
            final(self).wf(),
            match r {
                Ok(()) => {
                    &&& old(self).has_open_order()
                    &&& exists|k: int|
                        orders_closed_at(
                            old(self).orders@,
                            final(self).orders@,
                            k,
                            now,
                        )
                },
                Err(e) => {
                    &&& e == Error::NoOpenOrder
                    &&& !old(self).has_open_order()
                    &&& final(self).orders@ == old(self).orders@
                },
            },
            final(self).restaurants@ == old(self).restaurants@,
            final(self).menus@ == old(self).menus@,
            final(self).menu_items@ == old(self).menu_items@,
            final(self).order_items@ == old(self).order_items@,
            final(self).associations@ == old(self).associations@,
    {
        let mut i: usize = 0;
        while i < self.orders.len()
            invariant
                i <= self.orders.len(),
                old(self).wf(),
                self == old(self),
                forall|j: int| 0 <= j < i ==> (#[trigger] self.orders[j]).closed is Some,
            decreases self.orders.len() - i,
        {
            let current = self.orders[i];
            if current.closed.is_none() {
                if current.closed.is_some() {
                    // defensive guard; unreachable because the scan found
                    // this order open
                    return Err(Error::OrderAlreadyClosed(current));
                }
                let updated = Order {
                    id: current.id,
                    menu: current.menu,
                    overhead_in_cents: current.overhead_in_cents,
                    opened: current.opened,
                    closed: Some(now),
                };
                self.orders.set(i, updated);
                proof {
                    assert(old(self).open_order_at(i as int));
                    assert(orders_closed_at(old(self).orders@, self.orders@, i as int, now));
                    assert forall|a: int, b: int|
                        0 <= a < b < self.orders.len() implies !((
                        #[trigger] self.orders[a].closed) is None && (
                        #[trigger] self.orders[b].closed) is None) by {
                        assert(!(old(self).orders@[a].closed is None && old(self).orders@[b].closed is None));
                    }
                    lemma_frame_items(*old(self), *self);
                }
                return Ok(());
            }
            i = i + 1;
        }
        proof {
            if old(self).has_open_order() {
                let j = choose|j: int| old(self).open_order_at(j);
                assert(self.orders@[j].closed is Some);
            }
        }
        Err(Error::NoOpenOrder)
    }

    /// Overwrite the overhead of the given order, in cents.  A missing
    /// order id leaves the state unchanged.
    pub fn set_overhead(&mut self, order_id: OrderId, new_overhead_in_cents: i32) -> (r: Result<
        (),
        Error,
    >)
        requires
            old(self).wf(),
        ensures
            final(self).wf(),
            r is Ok,
            (exists|k: int|
                0 <= k < old(self).orders@.len() && (#[trigger] old(self).orders@[k]).id
                    == order_id) ==> exists|k: int|
                overhead_set_at(
                    old(self).orders@,
                    final(self).orders@,
                    k,
                    order_id,
                    new_overhead_in_cents,
                ),
            (forall|k: int|
                0 <= k < old(self).orders@.len() ==> (#[trigger] old(self).orders@[k]).id
                    != order_id) ==> final(self).orders@ == old(self).orders@,
            final(self).restaurants@ == old(self).restaurants@,
            final(self).menus@ == old(self).menus@,
            final(self).menu_items@ == old(self).menu_items@,
            final(self).order_items@ == old(self).order_items@,
            final(self).associations@ == old(self).associations@,
    {
        let mut i: usize = 0;
        while i < self.orders.len()
            invariant
                i <= self.orders.len(),
                old(self).wf(),
                self == old(self),
                forall|j: int| 0 <= j < i ==> (#[trigger] self.orders[j]).id != order_id,
            decreases self.orders.len() - i,
        {
            let current = self.orders[i];
            if current.id.0 == order_id.0 {
                let updated = Order {
                    id: current.id,
                    menu: current.menu,
                    overhead_in_cents: new_overhead_in_cents,
                    opened: current.opened,
                    closed: current.closed,
                };
                self.orders.set(i, updated);
                proof {
                    assert(overhead_set_at(
                        old(self).orders@,
                        self.orders@,
                        i as int,
                        order_id,
                        new_overhead_in_cents,
                    ));
                    assert forall|a: int, b: int|
                        0 <= a < b < self.orders.len() implies !((
                        #[trigger] self.orders[a].closed) is None && (
                        #[trigger] self.orders[b].closed) is None) by {
                        assert(!(old(self).orders@[a].closed is None && old(self).orders@[b].closed is None));
                    }
                    lemma_frame_items(*old(self), *self);
                }
                return Ok(());
            }
            i = i + 1;
        }
        Ok(())
    }
}

/// Every selected menu item comes from the table and belongs to the menu.
pub proof fn lemma_items_of_menu_sub(s: Seq<MenuItem>, mid: MenuId)
    ensures
        forall|i: int|
            0 <= i < items_of_menu(s, mid).len() ==> s.contains(
                #[trigger] items_of_menu(s, mid)[i],
            ) && items_of_menu(s, mid)[i].menu == mid,
    decreases s.len(),
{
    if s.len() > 0 {
        lemma_items_of_menu_sub(s.drop_last(), mid);
        let p = items_of_menu(s.drop_last(), mid);
        let l = items_of_menu(s, mid);
        assert forall|i: int| 0 <= i < l.len() implies s.contains(#[trigger] l[i]) && l[i].menu
            == mid by {
            if i < p.len() {
                assert(s.drop_last().contains(p[i]));
                let j = choose|j: int| 0 <= j < s.drop_last().len() && s.drop_last()[j] == p[i];
                assert(s[j] == p[i]);
            } else {
                assert(l[i] == s.last());
                assert(s[s.len() - 1] == s.last());
            }
        }
    }
}

/// The order lines belonging to one order, in table order.
pub open spec fn lines_of_order(s: Seq<OrderItem>, oid: OrderId) -> Seq<OrderItem>
    decreases s.len(),
{
    if s.len() == 0 {
        Seq::empty()
    } else {
        let p = lines_of_order(s.drop_last(), oid);
        if s.last().order == oid {
            p.push(s.last())
        } else {
            p
        }
    }
}

/// The order lines left after one person's lines in one order are cleared.
pub open spec fn remaining_after_clear(s: Seq<OrderItem>, oid: OrderId, person: Seq<char>) -> Seq<
    OrderItem,
>
    decreases s.len(),
{
    if s.len() == 0 {
        Seq::empty()
    } else {
        let p = remaining_after_clear(s.drop_last(), oid, person);
        if s.last().order == oid && s.last().person_name@ == person {
            p
        } else {
            p.push(s.last())
        }
    }
}

/// Every line selected for an order comes from the table and carries that
/// order's id.
pub proof fn lemma_lines_sub(s: Seq<OrderItem>, oid: OrderId)
    ensures
        forall|i: int|
            0 <= i < lines_of_order(s, oid).len() ==> s.contains(
                #[trigger] lines_of_order(s, oid)[i],
            ) && lines_of_order(s, oid)[i].order == oid,
    decreases s.len(),
{
    if s.len() > 0 {
        lemma_lines_sub(s.drop_last(), oid);
        let p = lines_of_order(s.drop_last(), oid);
        let l = lines_of_order(s, oid);
        assert forall|i: int| 0 <= i < l.len() implies s.contains(#[trigger] l[i]) && l[i].order
            == oid by {
            if i < p.len() {
                assert(s.drop_last().contains(p[i]));
                let j = choose|j: int| 0 <= j < s.drop_last().len() && s.drop_last()[j] == p[i];
                assert(s[j] == p[i]);
            } else {
                assert(l[i] == s.last());
                assert(s[s.len() - 1] == s.last());
            }
        }
    }
}

/// Order line lin kage depends only on the order and menu item tables.
pub proof fn lemma_item_ref_carry(s1: State, s2: State, oi: OrderItem)
    requires
        s1.item_ref_ok(oi),
        s1.orders.len() <= s2.orders.len(),
        forall|i: int|
            0 <= i < s1.orders.len() ==> (#[trigger] s2.orders[i]).id == s1.orders[i].id
                && s2.orders[i].menu == s1.orders[i].menu,
        s1.menu_items.len() <= s2.menu_items.len(),
        forall|i: int|
            0 <= i < s1.menu_items.len() ==> (#[trigger] s2.menu_items[i]) == s1.menu_items[i],
    ensures
        s2.item_ref_ok(oi),
{
    let (oj, mj) = choose|oj: int, mj: int|
        {
            &&& 0 <= oj < s1.orders.len()
            &&& 0 <= mj < s1.menu_items.len()
            &&& (#[trigger] s1.orders[oj]).id == oi.order
            &&& (#[trigger] s1.menu_items[mj]).id == oi.menu_item
            &&& s1.menu_items[mj].menu == s1.orders[oj].menu
        };
    assert(s2.orders[oj].id == s1.orders[oj].id && s2.orders[oj].menu == s1.orders[oj].menu);
    assert(s2.menu_items[mj] == s1.menu_items[mj]);
}

/// Ordering of the lines of a bill: by person name, then by menu item id.
pub open spec fn pair_le(x: (MenuItem, OrderItem), y: (MenuItem, OrderItem)) -> bool {
    ||| (lex_le(x.1.person_name@, y.1.person_name@) && x.1.person_name@ != y.1.person_name@)
    ||| (x.1.person_name@ == y.1.person_name@ && x.1.menu_item.0 <= y.1.menu_item.0)
}

/// The pair order is total.
pub proof fn lemma_pair_total(x: (MenuItem, OrderItem), y: (MenuItem, OrderItem))
    ensures
        pair_le(x, y) || pair_le(y, x),
{
    lemma_lex_total(x.1.person_name@, y.1.person_name@);
}

/// The pair order is transitive.
pub proof fn lemma_pair_trans(x: (MenuItem, OrderItem), y: (MenuItem, OrderItem), z: (
    MenuItem,
    OrderItem,
))
    requires
        pair_le(x, y),
        pair_le(y, z),
    ensures
        pair_le(x, z),
{
    let a = x.1.person_name@;
    let b = y.1.person_name@;
    let c = z.1.person_name@;
    if a != b && b != c {
        lemma_lex_trans(a, b, c);
        if a == c {
            lemma_lex_antisym(a, b);
        }
    }
}

/// A sequence of bill lines sorted by person, then menu item id.
pub open spec fn sorted_pairs(s: Seq<(MenuItem, OrderItem)>) -> bool {
    forall|i: int, j: int| 0 <= i < j < s.len() ==> pair_le(#[trigger] s[i], #[trigger] s[j])
}

/// Total menu price, in cents, of a sequence of bill lines.
pub open spec fn pair_price_sum(s: Seq<(MenuItem, OrderItem)>) -> int
    decreases s.len(),
{
    if s.len() == 0 {
        0
    } else {
        pair_price_sum(s.drop_last()) + s.last().0.price_in_cents
    }
}

/// Inserting a line adds its price to the total.
proof fn lemma_pair_sum_insert(s: Seq<(MenuItem, OrderItem)>, j: int, x: (MenuItem, OrderItem))
    requires
        0 <= j <= s.len(),
    ensures
        pair_price_sum(s.insert(j, x)) == pair_price_sum(s) + x.0.price_in_cents,
    decreases s.len(),
{
    let t = s.insert(j, x);
    if j == s.len() {
        assert(t.drop_last() =~= s);
        assert(t.last() == x);
    } else {
        assert(t.drop_last() =~= s.drop_last().insert(j, x));
        assert(t.last() == s.last());
        lemma_pair_sum_insert(s.drop_last(), j, x);
    }
}

/// Decide the pair order.
fn pair_le_exec(x: &(MenuItem, OrderItem), y: &(MenuItem, OrderItem)) -> (r: bool)
    ensures
        r == pair_le(*x, *y),
{
    if str_eq(x.1.person_name.as_str(), y.1.person_name.as_str()) {
        x.1.menu_item.0 <= y.1.menu_item.0
    } else {
        str_le(x.1.person_name.as_str(), y.1.person_name.as_str())
    }
}

/// Stable insertion sort of bill lines by person, then menu item id.
fn sort_pairs(v: Vec<(MenuItem, OrderItem)>) -> (r: Vec<(MenuItem, OrderItem)>)
    ensures
        r@.to_multiset() == v@.to_multiset(),
        sorted_pairs(r@),
        pair_price_sum(r@) == pair_price_sum(v@),
{
    let mut out: Vec<(MenuItem, OrderItem)> = Vec::new();
    let mut i: usize = 0;
    proof {
        assert(v@.subrange(0, 0) =~= Seq::<(MenuItem, OrderItem)>::empty());
    }
    while i < v.len()
        invariant
            i <= v.len(),
            out@.to_multiset() == v@.subrange(0, i as int).to_multiset(),
            sorted_pairs(out@),
            pair_price_sum(out@) == pair_price_sum(v@.subrange(0, i as int)),
        decreases v.len() - i,
    {
        let ghost pre = v@.subrange(0, i as int);
        let ghost post = v@.subrange(0, i + 1);
        proof {
            assert(post.drop_last() =~= pre);
            assert(post.last() == v@[i as int]);
        }
        let x = (v[i].0.clone(), v[i].1.clone());
        let mut j: usize = 0;
        while j < out.len() && pair_le_exec(&out[j], &x)
            invariant
                j <= out.len(),
                forall|k: int| 0 <= k < j ==> pair_le(#[trigger] out[k], x),
            decreases out.len() - j,
        {
            j = j + 1;
        }
        let ghost out0 = out@;
        proof {
            if j < out.len() {
                lemma_pair_total(out0[j as int], x);
            }
        }
        out.insert(j, x);
        proof {
            broadcast use vstd::seq_lib::group_to_multiset_ensures;

            assert(x == v@[i as int]);
            assert(post =~= pre.push(x));
            vstd::seq_lib::to_multiset_insert(out0, j as int, x);
            lemma_pair_sum_insert(out0, j as int, x);
            assert(pre.push(x).to_multiset() =~= pre.to_multiset().insert(x));
            assert forall|a: int, b: int| 0 <= a < b < out.len() implies pair_le(
                #[trigger] out[a],
                #[trigger] out[b],
            ) by {
                if a < j && b == j as int {
                    assert(out[a] == out0[a]);
                } else if a == j as int && b > j {
                    assert(out[b] == out0[b - 1]);
                    if b - 1 > j {
                        lemma_pair_trans(x, out0[j as int], out0[b - 1]);
                    }
                } else if a < j && b > j {
                    assert(out[a] == out0[a]);
                    assert(out[b] == out0[b - 1]);
                } else if a != j as int && b != j as int {
                    if b < j {
                        assert(out[a] == out0[a]);
                        assert(out[b] == out0[b]);
                    } else {
                        assert(out[a] == out0[a - 1]);
                        assert(out[b] == out0[b - 1]);
                    }
                }
            }
        }
        i = i + 1;
    }
    proof {
        assert(v@.subrange(0, v.len() as int) =~= v@);
    }
    out
}

impl State {
    /// The menu item carrying the given id (meaningful when one exists).
    pub open spec fn menu_item_for(self, id: MenuItemId) -> MenuItem {
        self.menu_items@[choose|i: int|
            0 <= i < self.menu_items@.len() && (#[trigger] self.menu_items@[i]).id == id]
    }

    /// The given order lines, each joined with its menu item.
    pub open spec fn joined_lines(self, s: Seq<OrderItem>) -> Seq<(MenuItem, OrderItem)>
        decreases s.len(),
    {
        if s.len() == 0 {
            Seq::empty()
        } else {
            self.joined_lines(s.drop_last()).push(
                (self.menu_item_for(s.last().menu_item), s.last()),
            )
        }
    }

    /// The lines of one order joined with their menu items, in table order.
    pub open spec fn joined(self, oid: OrderId) -> Seq<(MenuItem, OrderItem)> {
        self.joined_lines(lines_of_order(self.order_items@, oid))
    }

    /// A line may be added when its order exists and the menu item belongs
    /// to that order's menu.
    pub open spec fn valid_line_target(self, order: OrderId, menu_item: MenuItemId) -> bool {
        exists|oj: int, mj: int|
            {
                &&& 0 <= oj < self.orders.len()
                &&& 0 <= mj < self.menu_items.len()
                &&& (#[trigger] self.orders[oj]).id == order
                &&& (#[trigger] self.menu_items[mj]).id == menu_item
                &&& self.menu_items[mj].menu == self.orders[oj].menu
            }
    }

    /// Find the menu item with the given id.
    pub(crate) fn find_menu_item(&self, id: MenuItemId) -> (r: Option<MenuItem>)
        requires
            self.wf(),
        ensures
            match r {
                Some(m) => {
                    &&& m == self.menu_item_for(id)
                    &&& self.menu_items@.contains(m)
                    &&& m.id == id
                },
                None => forall|i: int|
                    0 <= i < self.menu_items.len() ==> (#[trigger] self.menu_items[i]).id != id,
            },
    {
        let mut i: usize = 0;
        while i < self.menu_items.len()
            invariant
                self.wf(),
                i <= self.menu_items.len(),
                forall|j: int| 0 <= j < i ==> (#[trigger] self.menu_items[j]).id != id,
            decreases self.menu_items.len() - i,
        {
            if self.menu_items[i].id.0 == id.0 {
                let m = self.menu_items[i].clone();
                proof {
                    assert(self.menu_items@.contains(self.menu_items@[i as int]));
                    let c = choose|c: int|
                        0 <= c < self.menu_items@.len() && (#[trigger] self.menu_items@[c]).id
                            == id;
                    if c != i as int {
                        assert(false);
                    }
                }
                return Some(m);
            }
            i = i + 1;
        }
        None
    }

    /// Append one line to an order: the named person ordered the given
    /// menu item.  The same item may be added again and yields a second
    /// line.  The menu item must belong to the order's menu.
    pub fn add_order_item(&mut self, order: OrderId, person_name: &str, menu_item: MenuItemId)
        -> (r: Result<(), Error>)
        requires
            old(self).wf(),
        ensures
            final(self).wf(),
            match r {
                Ok(()) => {
                    &&& old(self).valid_line_target(order, menu_item)
                    &&& old(self).next_order_item_id < i32::MAX
                    &&& final(self).next_order_item_id == old(self).next_order_item_id + 1
                    &&& final(self).order_items@.len() == old(self).order_items@.len() + 1
                    &&& final(self).order_items@.drop_last() == old(self).order_items@
                    &&& final(self).order_items@.last().order == order
                    &&& final(self).order_items@.last().person_name@ == person_name@
                    &&& final(self).order_items@.last().menu_item == menu_item
                },
                Err(Error::NotFound) => {
                    &&& !old(self).valid_line_target(order, menu_item)
                    &&& final(self).order_items@ == old(self).order_items@
                    &&& final(self).next_order_item_id == old(self).next_order_item_id
                },
                Err(e) => {
                    &&& e == Error::StoreError
                    &&& old(self).valid_line_target(order, menu_item)
                    &&& old(self).next_order_item_id == i32::MAX
                    &&& final(self).order_items@ == old(self).order_items@
                    &&& final(self).next_order_item_id == old(self).next_order_item_id
                },
            },
            final(self).restaurants@ == old(self).restaurants@,
            final(self).menus@ == old(self).menus@,
            final(self).menu_items@ == old(self).menu_items@,
            final(self).orders@ == old(self).orders@,
            final(self).associations@ == old(self).associations@,
    {
        // locate the order
        let mut oi: usize = 0;
        let mut found_order: Option<Order> = None;
        while oi < self.orders.len() && found_order.is_none()
            invariant
                oi <= self.orders.len(),
                self == old(self),
                old(self).wf(),
                match found_order {
                    Some(o) => self.orders@.contains(o) && o.id == order,
                    None => forall|j: int|
                        0 <= j < oi ==> (#[trigger] self.orders[j]).id != order,
                },
            decreases self.orders.len() - oi,
        {
            if self.orders[oi].id.0 == order.0 {
                found_order = Some(self.orders[oi]);
                proof {
                    assert(self.orders@.contains(self.orders@[oi as int]));
                }
            }
            oi = oi + 1;
        }
        let target_order = match found_order {
            Some(o) => o,
            None => {
                proof {
                    if old(self).valid_line_target(order, menu_item) {
                        let (oj, mj) = choose|oj: int, mj: int|
                            {
                                &&& 0 <= oj < old(self).orders.len()
                                &&& 0 <= mj < old(self).menu_items.len()
                                &&& (#[trigger] old(self).orders[oj]).id == order
                                &&& (#[trigger] old(self).menu_items[mj]).id == menu_item
                                &&& old(self).menu_items[mj].menu == old(self).orders[oj].menu
                            };
                        assert(self.orders[oj].id == order);
                    }
                }
                return Err(Error::NotFound);
            },
        };
        // locate the menu item and check it belongs to the order's menu
        let target_item = match self.find_menu_item(menu_item) {
            Some(m) => m,
            None => {
                proof {
                    if old(self).valid_line_target(order, menu_item) {
                        let (oj, mj) = choose|oj: int, mj: int|
                            {
                                &&& 0 <= oj < old(self).orders.len()
                                &&& 0 <= mj < old(self).menu_items.len()
                                &&& (#[trigger] old(self).orders[oj]).id == order
                                &&& (#[trigger] old(self).menu_items[mj]).id == menu_item
                                &&& old(self).menu_items[mj].menu == old(self).orders[oj].menu
                            };
                        assert(self.menu_items[mj].id == menu_item);
                    }
                }
                return Err(Error::NotFound);
            },
        };
        if target_item.menu.0 != target_order.menu.0 {
            proof {
                if old(self).valid_line_target(order, menu_item) {
                    let (oj, mj) = choose|oj: int, mj: int|
                        {
                            &&& 0 <= oj < old(self).orders.len()
                            &&& 0 <= mj < old(self).menu_items.len()
                            &&& (#[trigger] old(self).orders[oj]).id == order
                            &&& (#[trigger] old(self).menu_items[mj]).id == menu_item
                            &&& old(self).menu_items[mj].menu == old(self).orders[oj].menu
                        };
                    let co = choose|co: int|
                        0 <= co < self.orders@.len() && self.orders@[co] == target_order;
                    assert(self.orders[oj].id == self.orders[co].id);
                    assert(self.menu_items[mj] == self.menu_item_for(menu_item));
                }
            }
            return Err(Error::NotFound);
        }
        proof {
            let co = choose|co: int|
                0 <= co < self.orders@.len() && self.orders@[co] == target_order;
            let cm = choose|cm: int|
                0 <= cm < self.menu_items@.len() && self.menu_items@[cm] == target_item;
            assert(old(self).valid_line_target(order, menu_item)) by {
                assert(0 <= co < old(self).orders.len() && 0 <= cm < old(
                    self,
                ).menu_items.len() && old(self).orders[co].id == order && old(
                    self,
                ).menu_items[cm].id == menu_item && old(self).menu_items[cm].menu == old(
                    self,
                ).orders[co].menu);
            };
        }
        if self.next_order_item_id == i32::MAX {
            return Err(Error::StoreError);
        }
        let id = OrderItemId(self.next_order_item_id);
        self.order_items.push(
            OrderItem { id, order, person_name: person_name.to_owned(), menu_item },
        );
        self.next_order_item_id = self.next_order_item_id + 1;
        proof {
            assert(self.order_items@.drop_last() =~= old(self).order_items@);
            assert forall|i: int| 0 <= i < self.order_items.len() implies self.item_ref_ok(
                #[trigger] self.order_items[i],
            ) by {
                if i < old(self).order_items.len() {
                    assert(old(self).item_ref_ok(old(self).order_items[i]));
                    lemma_item_ref_carry(*old(self), *self, old(self).order_items@[i]);
                } else {
                    let co = choose|co: int|
                        0 <= co < self.orders@.len() && self.orders@[co] == target_order;
                    let cm = choose|cm: int|
                        0 <= cm < self.menu_items@.len() && self.menu_items@[cm] == target_item;
                    assert(self.orders[co].id == order && self.menu_items[cm].id == menu_item
                        && self.menu_items[cm].menu == self.orders[co].menu);
                }
            }
        }
        Ok(())
    }

    /// Delete every line of the given person within the given order.
    pub fn clear_orders_for_person(&mut self, order: OrderId, person_name: &str) -> (r: Result<
        (),
        Error,
    >)
        requires
            old(self).wf(),
        ensures
            final(self).wf(),
            r is Ok,
            final(self).order_items@ == remaining_after_clear(
                old(self).order_items@,
                order,
                person_name@,
            ),
            final(self).restaurants@ == old(self).restaurants@,
            final(self).menus@ == old(self).menus@,
            final(self).menu_items@ == old(self).menu_items@,
            final(self).orders@ == old(self).orders@,
            final(self).associations@ == old(self).associations@,
    {
        let mut out: Vec<OrderItem> = Vec::new();
        let mut i: usize = 0;
        proof {
            assert(self.order_items@.subrange(0, 0) =~= Seq::<OrderItem>::empty());
            assert(remaining_after_clear(self.order_items@.subrange(0, 0), order, person_name@)
                =~= out@);
        }
        while i < self.order_items.len()
            invariant
                i <= self.order_items.len(),
                self == old(self),
                old(self).wf(),
                out@ == remaining_after_clear(
                    self.order_items@.subrange(0, i as int),
                    order,
                    person_name@,
                ),
                forall|k: int|
                    0 <= k < out@.len() ==> exists|j: int|
                        0 <= j < i && #[trigger] out@[k] == self.order_items@[j],
            decreases self.order_items.len() - i,
        {
            let ghost pre = self.order_items@.subrange(0, i as int);
            let ghost post = self.order_items@.subrange(0, i + 1);
            proof {
                assert(post.drop_last() =~= pre);
                assert(post.last() == self.order_items@[i as int]);
            }
            let line = &self.order_items[i];
            let matches_order = line.order.0 == order.0;
            let matches_person = str_eq(line.person_name.as_str(), person_name);
            if !(matches_order && matches_person) {
                out.push(self.order_items[i].clone());
                proof {
                    assert(out@.last() == self.order_items@[i as int]);
                    assert forall|k: int| 0 <= k < out@.len() implies exists|j: int|
                        0 <= j < i + 1 && #[trigger] out@[k] == self.order_items@[j] by {
                        if k < out@.len() - 1 {
                            let j = choose|j: int|
                                0 <= j < i && out@[k] == self.order_items@[j];
                            assert(0 <= j < i + 1 && out@[k] == self.order_items@[j]);
                        } else {
                            assert(out@[k] == self.order_items@[i as int]);
                        }
                    }
                }
            }
            i = i + 1;
        }
        proof {
            assert(self.order_items@.subrange(0, self.order_items.len() as int)
                =~= self.order_items@);
        }
        self.order_items = out;
        proof {
            assert forall|a: int, b: int|
                0 <= a < b < self.order_items.len() implies (
            #[trigger] self.order_items[a].id) != (#[trigger] self.order_items[b].id) by {
                let ja = choose|j: int|
                    0 <= j < old(self).order_items@.len() && self.order_items@[a] == old(
                        self,
                    ).order_items@[j];
                let jb = choose|j: int|
                    0 <= j < old(self).order_items@.len() && self.order_items@[b] == old(
                        self,
                    ).order_items@[j];
                if ja == jb {
                    assert(self.order_items@[a] == self.order_items@[b]);
                    let ghost s0 = *old(self);
                    lemma_remaining_distinct(
                        s0.order_items@,
                        order,
                        person_name@,
                        a,
                        b,
                    );
                }
            }
            assert forall|i: int| 0 <= i < self.order_items.len() implies self.item_ref_ok(
                #[trigger] self.order_items[i],
            ) by {
                let j = choose|j: int|
                    0 <= j < old(self).order_items@.len() && self.order_items@[i] == old(
                        self,
                    ).order_items@[j];
                assert(old(self).item_ref_ok(old(self).order_items@[j]));
                lemma_item_ref_carry(*old(self), *self, self.order_items@[i]);
            }
            assert forall|i: int|
                0 <= i < self.order_items.len() implies (#[trigger] self.order_items[i].id).0
                < self.next_order_item_id by {
                let j = choose|j: int|
                    0 <= j < old(self).order_items@.len() && self.order_items@[i] == old(
                        self,
                    ).order_items@[j];
            }
        }
        Ok(())
    }

    /// The lines of one order, each joined with its menu item, sorted by
    /// person name and then by menu item id — the order that downstream
    /// grouping by person relies on.
    pub fn items_in_order(&self, order_id: OrderId) -> (r: Result<
        Vec<(MenuItem, OrderItem)>,
        Error,
    >)
        requires
            self.wf(),
        ensures
            match r {
                Ok(v) => {
                    &&& v@.to_multiset() == self.joined(order_id).to_multiset()
                    &&& sorted_pairs(v@)
                    &&& pair_price_sum(v@) == pair_price_sum(self.joined(order_id))
                    &&& forall|i: int|
                        0 <= i < v@.len() ==> ((#[trigger] v@[i]).1.order == order_id
                            && v@[i].0.id == v@[i].1.menu_item && self.menu_items@.contains(
                            v@[i].0,
                        ))
                },
                Err(_) => false,
            },
    {
        let mut pairs: Vec<(MenuItem, OrderItem)> = Vec::new();
        let mut i: usize = 0;
        proof {
            assert(self.order_items@.subrange(0, 0) =~= Seq::<OrderItem>::empty());
            assert(self.joined_lines(lines_of_order(self.order_items@.subrange(0, 0), order_id))
                =~= pairs@);
        }
        while i < self.order_items.len()
            invariant
                self.wf(),
                i <= self.order_items.len(),
                pairs@ == self.joined_lines(
                    lines_of_order(self.order_items@.subrange(0, i as int), order_id),
                ),
            decreases self.order_items.len() - i,
        {
            let ghost pre = self.order_items@.subrange(0, i as int);
            let ghost post = self.order_items@.subrange(0, i + 1);
            proof {
                assert(post.drop_last() =~= pre);
                assert(post.last() == self.order_items@[i as int]);
            }
            let line = &self.order_items[i];
            if line.order.0 == order_id.0 {
                proof {
                    assert(self.item_ref_ok(self.order_items@[i as int]));
                    let (oj, mj) = choose|oj: int, mj: int|
                        {
                            &&& 0 <= oj < self.orders.len()
                            &&& 0 <= mj < self.menu_items.len()
                            &&& (#[trigger] self.orders[oj]).id == self.order_items@[i as int].order
                            &&& (#[trigger] self.menu_items[mj]).id == self.order_items@[
                                i as int].menu_item
                            &&& self.menu_items[mj].menu == self.orders[oj].menu
                        };
                    assert(self.menu_items[mj].id == self.order_items@[i as int].menu_item);
                }
                match self.find_menu_item(self.order_items[i].menu_item) {
                    Some(m) => {
                        pairs.push((m, self.order_items[i].clone()));
                        proof {
                            assert(lines_of_order(post, order_id) == lines_of_order(
                                pre,
                                order_id,
                            ).push(self.order_items@[i as int]));
                            let lp = lines_of_order(pre, order_id).push(
                                self.order_items@[i as int],
                            );
                            assert(lp.drop_last() =~= lines_of_order(pre, order_id));
                        }
                    },
                    None => {
                        return Err(Error::NotFound);
                    },
                }
            } else {
                proof {
                    assert(lines_of_order(post, order_id) == lines_of_order(pre, order_id));
                }
            }
            i = i + 1;
        }
        proof {
            assert(self.order_items@.subrange(0, self.order_items.len() as int)
                =~= self.order_items@);
        }
        let sorted = sort_pairs(pairs);
        proof {
            broadcast use vstd::seq_lib::group_to_multiset_ensures;

            lemma_lines_sub(self.order_items@, order_id);
            lemma_joined_wf(*self, lines_of_order(self.order_items@, order_id), order_id);
            assert forall|i: int| 0 <= i < sorted@.len() implies ((
            #[trigger] sorted@[i]).1.order == order_id && sorted@[i].0.id
                == sorted@[i].1.menu_item && self.menu_items@.contains(sorted@[i].0)) by {
                assert(sorted@.to_multiset().count(sorted@[i]) > 0);
                assert(self.joined(order_id).contains(sorted@[i]));
                let j = choose|j: int|
                    0 <= j < self.joined(order_id).len() && self.joined(order_id)[j]
                        == sorted@[i];
            }
        }
        Ok(sorted)
    }
}

/// A joined sequence carries its lines one for one.
pub proof fn lemma_joined_pairs(st: State, lines: Seq<OrderItem>)
    ensures
        st.joined_lines(lines).len() == lines.len(),
        forall|k: int|
            0 <= k < lines.len() ==> (#[trigger] st.joined_lines(lines)[k]).1 == lines[k],
    decreases lines.len(),
{
    if lines.len() > 0 {
        lemma_joined_pairs(st, lines.drop_last());
        let jl = st.joined_lines(lines);
        let jp = st.joined_lines(lines.drop_last());
        assert(forall|k: int| 0 <= k < jp.len() ==> (#[trigger] jl[k]) == jp[k]);
        assert(jl[lines.len() - 1].1 == lines[lines.len() - 1]);
    }
}

/// Lines kept by a clear are distinct positions of the original table.
proof fn lemma_remaining_distinct(s: Seq<OrderItem>, oid: OrderId, person: Seq<char>, a: int, b: int)
    requires
        0 <= a < b < remaining_after_clear(s, oid, person).len(),
    ensures
        remaining_after_clear(s, oid, person)[a] != remaining_after_clear(s, oid, person)[b]
            || exists|ja: int, jb: int|
            0 <= ja < jb < s.len() && s[ja] == remaining_after_clear(s, oid, person)[a]
                && s[jb] == remaining_after_clear(s, oid, person)[b],
    decreases s.len(),
{
    let rem = remaining_after_clear(s, oid, person);
    if s.len() > 0 {
        let p = remaining_after_clear(s.drop_last(), oid, person);
        if rem.len() > p.len() {
            // the last element was kept
            if b < p.len() {
                lemma_remaining_distinct(s.drop_last(), oid, person, a, b);
                if p[a] != p[b] {
                } else {
                    let (ja, jb) = choose|ja: int, jb: int|
                        0 <= ja < jb < s.drop_last().len() && s.drop_last()[ja] == p[a]
                            && s.drop_last()[jb] == p[b];
                    assert(s[ja] == p[a] && s[jb] == p[b]);
                }
            } else {
                // b is the kept last element
                lemma_remaining_sub(s.drop_last(), oid, person, a);
                let ja = choose|ja: int|
                    0 <= ja < s.drop_last().len() && s.drop_last()[ja] == p[a];
                assert(s[ja] == rem[a]);
                assert(s[s.len() - 1] == rem[b]);
            }
        } else {
            lemma_remaining_distinct(s.drop_last(), oid, person, a, b);
            if p[a] != p[b] {
            } else {
                let (ja, jb) = choose|ja: int, jb: int|
                    0 <= ja < jb < s.drop_last().len() && s.drop_last()[ja] == p[a]
                        && s.drop_last()[jb] == p[b];
                assert(s[ja] == p[a] && s[jb] == p[b]);
            }
        }
    }
}

/// Every kept line is one of the original lines.
proof fn lemma_remaining_sub(s: Seq<OrderItem>, oid: OrderId, person: Seq<char>, k: int)
    requires
        0 <= k < remaining_after_clear(s, oid, person).len(),
    ensures
        exists|j: int|
            0 <= j < s.len() && s[j] == remaining_after_clear(s, oid, person)[k],
    decreases s.len(),
{
    let rem = remaining_after_clear(s, oid, person);
    if s.len() > 0 {
        let p = remaining_after_clear(s.drop_last(), oid, person);
        if k < p.len() {
            lemma_remaining_sub(s.drop_last(), oid, person, k);
            let j = choose|j: int|
                0 <= j < s.drop_last().len() && s.drop_last()[j] == p[k];
            assert(s[j] == rem[k]);
        } else {
            assert(s[s.len() - 1] == rem[k]);
        }
    }
}

/// Every joined pair of a linked line set is a line of the order with its
/// own menu item.
proof fn lemma_joined_wf(st: State, lines: Seq<OrderItem>, oid: OrderId)
    requires
        st.wf(),
        forall|i: int|
            0 <= i < lines.len() ==> st.order_items@.contains(#[trigger] lines[i]) && lines[i].order
                == oid,
    ensures
        forall|j: int|
            0 <= j < st.joined_lines(lines).len() ==> ((#[trigger] st.joined_lines(
                lines,
            )[j]).1.order == oid && st.joined_lines(lines)[j].0.id == st.joined_lines(
                lines,
            )[j].1.menu_item && st.menu_items@.contains(st.joined_lines(lines)[j].0)),
    decreases lines.len(),
{
    if lines.len() > 0 {
        assert(forall|i: int|
            0 <= i < lines.drop_last().len() ==> st.order_items@.contains(
                #[trigger] lines.drop_last()[i],
            ) && lines.drop_last()[i].order == oid);
        lemma_joined_wf(st, lines.drop_last(), oid);
        let last = lines.last();
        assert(st.order_items@.contains(last));
        let k = choose|k: int| 0 <= k < st.order_items@.len() && st.order_items@[k] == last;
        assert(st.item_ref_ok(st.order_items@[k]));
        let (oj, mj) = choose|oj: int, mj: int|
            {
                &&& 0 <= oj < st.orders.len()
                &&& 0 <= mj < st.menu_items.len()
                &&& (#[trigger] st.orders[oj]).id == last.order
                &&& (#[trigger] st.menu_items[mj]).id == last.menu_item
                &&& st.menu_items[mj].menu == st.orders[oj].menu
            };
        assert(exists|c: int|
            0 <= c < st.menu_items@.len() && (#[trigger] st.menu_items@[c]).id
                == last.menu_item) by {
            assert(st.menu_items@[mj].id == last.menu_item);
        };
        let c = choose|c: int|
            0 <= c < st.menu_items@.len() && (#[trigger] st.menu_items@[c]).id == last.menu_item;
        assert(st.menu_items@.contains(st.menu_items@[c]));
        assert(st.menu_item_for(last.menu_item) == st.menu_items@[c]);
        let jl = st.joined_lines(lines);
        let jp = st.joined_lines(lines.drop_last());
        assert(last == lines[lines.len() - 1]);
        assert(last.order == oid);
        assert(jl.last() == (st.menu_item_for(last.menu_item), last));
        assert(forall|j: int| 0 <= j < jp.len() ==> (#[trigger] jl[j]) == jp[j]);
    }
}

/// Order lines stay linked as long as the lines are unchanged, orders
/// keep their id and menu at each position, and menu items only grow.
proof fn lemma_frame_items(s1: State, s2: State)
    requires
        s1.items_linked(),
        s2.order_items@ == s1.order_items@,
        s1.orders.len() <= s2.orders.len(),
        forall|i: int|
            0 <= i < s1.orders.len() ==> (#[trigger] s2.orders[i]).id == s1.orders[i].id
                && s2.orders[i].menu == s1.orders[i].menu,
        s1.menu_items.len() <= s2.menu_items.len(),
        forall|i: int|
            0 <= i < s1.menu_items.len() ==> (#[trigger] s2.menu_items[i]) == s1.menu_items[i],
    ensures
        s2.items_linked(),
{
    assert forall|i: int| 0 <= i < s2.order_items.len() implies s2.item_ref_ok(
        #[trigger] s2.order_items[i],
    ) by {
        assert(s1.item_ref_ok(s1.order_items[i]));
        let (oj, mj) = choose|oj: int, mj: int|
            {
                &&& 0 <= oj < s1.orders.len()
                &&& 0 <= mj < s1.menu_items.len()
                &&& (#[trigger] s1.orders[oj]).id == s1.order_items[i].order
                &&& (#[trigger] s1.menu_items[mj]).id == s1.order_items[i].menu_item
                &&& s1.menu_items[mj].menu == s1.orders[oj].menu
            };
        assert(s2.orders[oj].id == s1.orders[oj].id && s2.orders[oj].menu == s1.orders[oj].menu);
        assert(s2.menu_items[mj] == s1.menu_items[mj]);
    }
}

/// Replacing the association at a matching position keeps the list
/// sorted and rewrites exactly that name's account.
proof fn lemma_assoc_update(s1: State, s2: State, k: int, name: Seq<char>, account: Seq<char>)
    requires
        s1.assoc_sorted(),
        0 <= k < s1.associations.len(),
        s1.associations[k].slack_name@ == name,
        s2.associations@ == s1.associations@.update(
            k,
            s2.associations@[k],
        ),
        s2.associations@[k].slack_name@ == name,
        s2.associations@[k].sharebill_account@ == account,
    ensures
        s2.assoc_sorted(),
        s2.assoc_of(name) == Some(account),
        forall|n: Seq<char>| n != name ==> s2.assoc_of(n) == s1.assoc_of(n),
{
    assert(s2.assoc_sorted());
    assert(s2.associations[k].slack_name@ == name);
    assert(s2.assoc_of(name) == Some(account)) by {
        let i = choose|i: int|
            0 <= i < s2.associations.len() && (#[trigger] s2.associations[i]).slack_name@
                == name;
        if i != k {
            assert(false);
        }
    };
    assert forall|n: Seq<char>| n != name implies s2.assoc_of(n) == s1.assoc_of(n) by {
        assert(forall|i: int|
            0 <= i < s2.associations.len() && i != k ==> #[trigger] s2.associations[i]
                == s1.associations[i]);
        if exists|i: int|
            0 <= i < s1.associations.len() && (#[trigger] s1.associations[i]).slack_name@ == n {
            let i = choose|i: int|
                0 <= i < s1.associations.len() && (#[trigger] s1.associations[i]).slack_name@
                    == n;
            assert(s2.associations[i].slack_name@ == n);
        }
        if exists|i: int|
            0 <= i < s2.associations.len() && (#[trigger] s2.associations[i]).slack_name@ == n {
            let i = choose|i: int|
                0 <= i < s2.associations.len() && (#[trigger] s2.associations[i]).slack_name@
                    == n;
            assert(s1.associations[i].slack_name@ == n);
        }
    }
}

/// Inserting a new association where every earlier name is smaller and
/// every later one larger keeps the list sorted and adds that mapping.
proof fn lemma_assoc_insert(s1: State, s2: State, k: int, name: Seq<char>, account: Seq<char>)
    requires
        s1.assoc_sorted(),
        0 <= k <= s1.associations.len(),
        forall|j: int|
            0 <= j < k ==> lex_le((#[trigger] s1.associations[j]).slack_name@, name)
                && s1.associations[j].slack_name@ != name,
        k < s1.associations.len() ==> lex_le(name, s1.associations[k].slack_name@)
            && s1.associations[k].slack_name@ != name,
        s2.associations@ == s1.associations@.insert(k, s2.associations@[k]),
        s2.associations@[k].slack_name@ == name,
        s2.associations@[k].sharebill_account@ == account,
    ensures
        s2.assoc_sorted(),
        s2.assoc_of(name) == Some(account),
        forall|n: Seq<char>| n != name ==> s2.assoc_of(n) == s1.assoc_of(n),
{
    // the new list is sorted: names before k are <= name, names after are >=
    assert forall|i: int, j: int| 0 <= i < j < s2.associations.len() implies lex_le(
        (#[trigger] s2.associations[i]).slack_name@,
        (#[trigger] s2.associations[j]).slack_name@,
    ) && s2.associations[i].slack_name@ != s2.associations[j].slack_name@ by {
        let ai = s2.associations[i].slack_name@;
        let aj = s2.associations[j].slack_name@;
        if i < k && j == k {
            assert(s2.associations[i] == s1.associations[i]);
        } else if i == k && j > k {
            assert(s2.associations[j] == s1.associations[j - 1]);
            assert(k < s1.associations.len());
            if j - 1 > k {
                crate::strorder::lemma_lex_trans(
                    name,
                    s1.associations[k].slack_name@,
                    s1.associations[j - 1].slack_name@,
                );
                if aj == name {
                    lemma_lex_antisym(name, s1.associations[k].slack_name@);
                }
            }
        } else if i < k && j > k {
            assert(s2.associations[i] == s1.associations[i]);
            assert(s2.associations[j] == s1.associations[j - 1]);
        } else if i != k && j != k {
            if j < k {
                assert(s2.associations[i] == s1.associations[i]);
                assert(s2.associations[j] == s1.associations[j]);
            } else if i > k {
                assert(s2.associations[i] == s1.associations[i - 1]);
                assert(s2.associations[j] == s1.associations[j - 1]);
            }
        }
    }
    assert(s2.assoc_of(name) == Some(account)) by {
        assert(s2.associations[k].slack_name@ == name);
        let i = choose|i: int|
            0 <= i < s2.associations.len() && (#[trigger] s2.associations[i]).slack_name@
                == name;
        if i != k {
            assert(false);
        }
    };
    assert forall|n: Seq<char>| n != name implies s2.assoc_of(n) == s1.assoc_of(n) by {
        if exists|i: int|
            0 <= i < s1.associations.len() && (#[trigger] s1.associations[i]).slack_name@ == n {
            let i = choose|i: int|
                0 <= i < s1.associations.len() && (#[trigger] s1.associations[i]).slack_name@
                    == n;
            if i < k {
                assert(s2.associations[i].slack_name@ == n);
            } else {
                assert(s2.associations[i + 1].slack_name@ == n);
            }
            let i2 = choose|i2: int|
                0 <= i2 < s2.associations.len() && (#[trigger] s2.associations[i2]).slack_name@
                    == n;
            let iback = if i2 < k {
                i2
            } else {
                i2 - 1
            };
            assert(s1.associations[iback].slack_name@ == n);
            assert(iback == i);
            assert(s2.associations[i2].sharebill_account@
                == s1.associations[i].sharebill_account@);
        } else {
            if exists|i2: int|
                0 <= i2 < s2.associations.len() && (#[trigger] s2.associations[i2]).slack_name@
                    == n {
                let i2 = choose|i2: int|
                    0 <= i2 < s2.associations.len()
                        && (#[trigger] s2.associations[i2]).slack_name@ == n;
                if i2 < k {
                    assert(s1.associations[i2].slack_name@ == n);
                } else if i2 > k {
                    assert(s1.associations[i2 - 1].slack_name@ == n);
                }
                assert(false);
            }
        }
    }
}

} // verus!

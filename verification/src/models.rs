//! The catalog and order entities.
//!
//! Every entity id is its own wrapper type, so a menu id can never be
//! passed where an order id is expected.  Prices and overhead are integer
//! cents; timestamps are plain seconds handed in by the caller.

use vstd::prelude::*;

verus! {

/// Identifier of a restaurant.
#[derive(Clone, Copy, Debug, PartialEq, Eq, Structural, Hash)]
pub struct RestaurantId(pub i32);

/// Identifier of a menu.
#[derive(Clone, Copy, Debug, PartialEq, Eq, Structural, Hash)]
pub struct MenuId(pub i32);

/// Identifier of a menu item.
#[derive(Clone, Copy, Debug, PartialEq, Eq, Structural, Hash)]
pub struct MenuItemId(pub i32);

/// Identifier of an order.
#[derive(Clone, Copy, Debug, PartialEq, Eq, Structural, Hash)]
pub struct OrderId(pub i32);

/// Identifier of an order line.
#[derive(Clone, Copy, Debug, PartialEq, Eq, Structural, Hash)]
pub struct OrderItemId(pub i32);

/// A restaurant known to the system.
#[derive(Debug)]
pub struct Restaurant {
    pub id: RestaurantId,
    pub name: String,
}

/// One imported menu of a restaurant; the newest import is current.
#[derive(Clone, Copy, Debug, PartialEq, Eq, Structural)]
pub struct Menu {
    pub id: MenuId,
    pub restaurant: RestaurantId,
    pub imported: i32,
}

/// A line of a menu: a human-facing number, a name, and a price in cents.
#[derive(Debug)]
pub struct MenuItem {
    pub id: MenuItemId,
    pub menu: MenuId,
    pub number: i32,
    pub name: String,
    pub price_in_cents: i32,
}

/// An order against one menu, with a shared overhead in cents.
#[derive(Clone, Copy, Debug, PartialEq, Eq, Structural)]
pub struct Order {
    pub id: OrderId,
    pub menu: MenuId,
    pub overhead_in_cents: i32,
    pub opened: i32,
    pub closed: Option<i32>,
}

/// One item ordered by one person within an order.
#[derive(Debug)]
pub struct OrderItem {
    pub id: OrderItemId,
    pub order: OrderId,
    pub person_name: String,
    pub menu_item: MenuItemId,
}

/// A mapping from a chat name to a billing account.
#[derive(Debug)]
pub struct SharebillAssociation {
    pub slack_name: String,
    pub sharebill_account: String,
}

impl Clone for Restaurant {
    fn clone(&self) -> (r: Self)
        ensures
            r == *self,
    {
        Restaurant { id: self.id, name: self.name.clone() }
    }
}

impl Clone for MenuItem {
    fn clone(&self) -> (r: Self)
        ensures
            r == *self,
    {
        MenuItem {
            id: self.id,
            menu: self.menu,
            number: self.number,
            name: self.name.clone(),
            price_in_cents: self.price_in_cents,
        }
    }
}

impl Clone for OrderItem {
    fn clone(&self) -> (r: Self)
        ensures
            r == *self,
    {
        OrderItem {
            id: self.id,
            order: self.order,
            person_name: self.person_name.clone(),
            menu_item: self.menu_item,
        }
    }
}

impl Clone for SharebillAssociation {
    fn clone(&self) -> (r: Self)
        ensures
            r == *self,
    {
        SharebillAssociation {
            slack_name: self.slack_name.clone(),
            sharebill_account: self.sharebill_account.clone(),
        }
    }
}

} // verus!

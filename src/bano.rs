use crate::item::{
    acquired, download_bano_item, transfer_recorded, download_bano_item_task, Acquisition, FetchFailure, Item,
};
use crate::order::text_eq;
use crate::status::FileStatus;
use vstd::prelude::*;

verus! {

/// A BANO data set as the catalog records it.
#[derive(Debug)]
pub struct BanoRecord {
    pub id: String,
    pub description: String,
}

/// A BANO data set with the items that it refers to.
#[derive(Debug)]
pub struct Bano {
    pub id: String,
    pub description: String,
    pub items: Vec<Item>,
}

/// Requests that the catalog refuses.
#[derive(Clone, Copy, Debug, PartialEq, Eq, Structural)]
pub enum UserError {
    /// No data set has the given id.
    UnknownBano,
    /// A data set with the given id exists already.
    DuplicateBano,
    /// The data set refers to an item with the given id already.
    DuplicateItem,
}

/// The catalog of data sets and of the items that they refer to. An item
/// can be referred to by several data sets; it stays while one refers to it
/// and goes with the last reference.
#[derive(Debug)]
pub struct BanoCatalog {
    pub banos: Vec<BanoRecord>,
    pub items: Vec<Item>,
    /// Pairs of a data set id and an item id.
    pub links: Vec<(String, String)>,
}

impl BanoCatalog {
    pub open spec fn has_bano(&self, id: Seq<char>) -> bool {
        exists|i: int| 0 <= i < self.banos@.len() && (#[trigger] self.banos@[i]).id@ == id
    }

    pub open spec fn has_item(&self, id: Seq<char>) -> bool {
        exists|i: int| 0 <= i < self.items@.len() && (#[trigger] self.items@[i]).id@ == id
    }

    /// Whether data set `b` refers to item `it`.
    pub open spec fn linked(&self, b: Seq<char>, it: Seq<char>) -> bool {
        exists|i: int|
            0 <= i < self.links@.len() && (#[trigger] self.links@[i]).0@ == b && self.links@[i].1@
                == it
    }

    /// Whether some data set refers to item `it`.
    pub open spec fn referenced(&self, it: Seq<char>) -> bool {
        exists|i: int| 0 <= i < self.links@.len() && (#[trigger] self.links@[i]).1@ == it
    }

    /// Everything but the rule that every item is referred to.
    pub open spec fn links_wf(&self) -> bool {
        &&& forall|i: int, j: int|
            0 <= i < j < self.banos@.len() ==> (#[trigger] self.banos@[i]).id@
                != (#[trigger] self.banos@[j]).id@
        &&& forall|i: int, j: int|
            0 <= i < j < self.items@.len() ==> (#[trigger] self.items@[i]).id@
                != (#[trigger] self.items@[j]).id@
        &&& forall|i: int, j: int|
            0 <= i < j < self.links@.len() ==> !((#[trigger] self.links@[i]).0@
                == (#[trigger] self.links@[j]).0@ && self.links@[i].1@ == self.links@[j].1@)
        &&& forall|i: int|
            0 <= i < self.links@.len() ==> self.has_bano((#[trigger] self.links@[i]).0@)
                && self.has_item(self.links@[i].1@)
    }

    pub open spec fn wf(&self) -> bool {
        &&& self.links_wf()
        &&& forall|k: int|
            0 <= k < self.items@.len() ==> self.referenced((#[trigger] self.items@[k]).id@)
    }

    /// An empty catalog.
    pub fn new() -> (r: BanoCatalog)
        ensures
            r.wf(),
            r.banos@.len() == 0,
            r.items@.len() == 0,
            r.links@.len() == 0,
    {
        BanoCatalog { banos: Vec::new(), items: Vec::new(), links: Vec::new() }
    }

    /// The position of data set `id`, if there is one.
    fn find_bano(&self, id: &str) -> (r: Option<usize>)
        ensures
            r matches Some(k) ==> k < self.banos@.len() && self.banos@[k as int].id@ == id@,
            r is None ==> !self.has_bano(id@),
    {
        let mut i: usize = 0;
        while i < self.banos.len()
            invariant
                i <= self.banos@.len(),
                forall|k: int| 0 <= k < i ==> (#[trigger] self.banos@[k]).id@ != id@,
            decreases self.banos@.len() - i,
        {
            if text_eq(self.banos[i].id.as_str(), id) {
                return Some(i);
            }
            i = i + 1;
        }
        None
    }

    /// The position of item `id`, if there is one.
    fn find_item(&self, id: &str) -> (r: Option<usize>)
        ensures
            r matches Some(k) ==> k < self.items@.len() && self.items@[k as int].id@ == id@,
            r is None ==> !self.has_item(id@),
    {
        let mut i: usize = 0;
        while i < self.items.len()
            invariant
                i <= self.items@.len(),
                forall|k: int| 0 <= k < i ==> (#[trigger] self.items@[k]).id@ != id@,
            decreases self.items@.len() - i,
        {
            if text_eq(self.items[i].id.as_str(), id) {
                return Some(i);
            }
            i = i + 1;
        }
        None
    }

    /// Whether data set `bano_id` refers to item `item_id`.
    fn is_linked(&self, bano_id: &str, item_id: &str) -> (r: bool)
        ensures
            r == self.linked(bano_id@, item_id@),
    {
        let mut i: usize = 0;
        while i < self.links.len()
            invariant
                i <= self.links@.len(),
                forall|k: int|
                    0 <= k < i ==> !((#[trigger] self.links@[k]).0@ == bano_id@ && self.links@[k].1@
                        == item_id@),
            decreases self.links@.len() - i,
        {
            if text_eq(self.links[i].0.as_str(), bano_id) && text_eq(
                self.links[i].1.as_str(),
                item_id,
            ) {
                return true;
            }
            i = i + 1;
        }
        false
    }

    /// Whether some data set refers to item `item_id`.
    fn is_referenced(&self, item_id: &str) -> (r: bool)
        ensures
            r == self.referenced(item_id@),
    {
        let mut i: usize = 0;
        while i < self.links.len()
            invariant
                i <= self.links@.len(),
                forall|k: int| 0 <= k < i ==> (#[trigger] self.links@[k]).1@ != item_id@,
            decreases self.links@.len() - i,
        {
            if text_eq(self.links[i].1.as_str(), item_id) {
                return true;
            }
            i = i + 1;
        }
        false
    }

    /// The data set with id `id` and its items, if there is one.
    pub fn fetch_bano(&self, id: &str) -> (r: Option<Bano>)
        requires
            self.wf(),
        ensures
            r is None <==> !self.has_bano(id@),
            r matches Some(b) ==> {
                &&& b.id@ == id@
                &&& exists|k: int|
                    0 <= k < self.banos@.len() && (#[trigger] self.banos@[k]).id@ == id@
                        && self.banos@[k].description@ == b.description@
                &&& self.items_of(id@, b.items@)
            },
    {
        match self.find_bano(id) {
            Some(k) => {
                let items = self.fetch_bano_items(id);
                Some(
                    Bano {
                        id: self.banos[k].id.clone(),
                        description: self.banos[k].description.clone(),
                        items,
                    },
                )
            },
            None => None,
        }
    }

    /// `v` holds the items that data set `b` refers to, each once, in
    /// catalog order.
    pub open spec fn items_of(&self, b: Seq<char>, v: Seq<Item>) -> bool {
        &&& forall|k: int|
            0 <= k < v.len() ==> self.linked(b, (#[trigger] v[k]).id@) && self.items@.contains(v[k])
        &&& forall|j: int|
            0 <= j < self.items@.len() && self.linked(b, (#[trigger] self.items@[j]).id@)
                ==> v.contains(self.items@[j])
        &&& forall|k: int, l: int| 0 <= k < l < v.len() ==> (#[trigger] v[k]).id@ != (#[trigger] v[l]).id@
    }

    /// The items that data set `bano_id` refers to.
    pub fn fetch_bano_items(&self, bano_id: &str) -> (r: Vec<Item>)
        requires
            self.wf(),
        ensures
            self.items_of(bano_id@, r@),
    {
        let mut r: Vec<Item> = Vec::new();
        let mut i: usize = 0;
        while i < self.items.len()
            invariant
                self.wf(),
                i <= self.items@.len(),
                forall|k: int|
                    0 <= k < r@.len() ==> self.linked(bano_id@, (#[trigger] r@[k]).id@)
                        && exists|j: int| 0 <= j < i && self.items@[j] == r@[k],
                forall|j: int|
                    0 <= j < i && self.linked(bano_id@, (#[trigger] self.items@[j]).id@)
                        ==> r@.contains(self.items@[j]),
                forall|k: int, l: int|
                    0 <= k < l < r@.len() ==> (#[trigger] r@[k]).id@ != (#[trigger] r@[l]).id@,
            decreases self.items@.len() - i,
        {
            if self.is_linked(bano_id, self.items[i].id.as_str()) {
                let it = self.items[i].copy();
                let ghost prev = r@;
                r.push(it);
                proof {
                    assert(r@[r@.len() - 1] == self.items@[i as int]);
                    assert forall|k: int| 0 <= k < r@.len() - 1 implies (#[trigger] r@[k]).id@
                        != self.items@[i as int].id@ by {
                        assert(r@[k] == prev[k]);
                        let j = choose|j: int| 0 <= j < i && self.items@[j] == prev[k];
                    }
                    assert forall|j: int|
                        0 <= j < i + 1 && self.linked(bano_id@, (#[trigger] self.items@[j]).id@)
                            implies r@.contains(self.items@[j]) by {
                        if j < i {
                            let k = choose|k: int| 0 <= k < prev.len() && prev[k] == self.items@[j];
                            assert(r@[k] == prev[k]);
                        } else {
                            assert(r@[r@.len() - 1] == self.items@[j]);
                        }
                    }
                    assert forall|k: int|
                        0 <= k < r@.len() implies self.linked(bano_id@, (#[trigger] r@[k]).id@)
                            && exists|j: int| 0 <= j < i + 1 && self.items@[j] == r@[k] by {
                        if k < prev.len() {
                            assert(r@[k] == prev[k]);
                        } else {
                            assert(self.items@[i as int] == r@[k]);
                        }
                    }
                }
            }
            i = i + 1;
        }
        proof {
            assert forall|k: int| 0 <= k < r@.len() implies self.items@.contains(#[trigger] r@[k]) by {
                let j = choose|j: int| 0 <= j < i && self.items@[j] == r@[k];
            }
        }
        r
    }

    /// Item `item_id` as data set `bano_id` refers to it, if it does.
    pub fn fetch_bano_item(&self, bano_id: &str, item_id: &str) -> (r: Option<Item>)
        requires
            self.wf(),
        ensures
            r is Some <==> self.linked(bano_id@, item_id@),
            r matches Some(it) ==> it.id@ == item_id@ && self.items@.contains(it),
    {
        if !self.is_linked(bano_id, item_id) {
            return None;
        }
        proof {
            let i = choose|i: int|
                0 <= i < self.links@.len() && (#[trigger] self.links@[i]).0@ == bano_id@
                    && self.links@[i].1@ == item_id@;
            assert(self.has_item(self.links@[i].1@));
        }
        match self.find_item(item_id) {
            Some(k) => Some(self.items[k].copy()),
            None => None,
        }
    }

    /// Every data set with its items.
    pub fn fetch_banos(&self) -> (r: Vec<Bano>)
        requires
            self.wf(),
        ensures
            r@.len() == self.banos@.len(),
            forall|k: int|
                0 <= k < r@.len() ==> (#[trigger] r@[k]).id@ == self.banos@[k].id@
                    && r@[k].description@ == self.banos@[k].description@ && self.items_of(
                    self.banos@[k].id@,
                    r@[k].items@,
                ),
    {
        let mut r: Vec<Bano> = Vec::new();
        let mut i: usize = 0;
        while i < self.banos.len()
            invariant
                self.wf(),
                i <= self.banos@.len(),
                r@.len() == i,
                forall|k: int|
                    0 <= k < i ==> (#[trigger] r@[k]).id@ == self.banos@[k].id@
                        && r@[k].description@ == self.banos@[k].description@ && self.items_of(
                        self.banos@[k].id@,
                        r@[k].items@,
                    ),
            decreases self.banos@.len() - i,
        {
            let items = self.fetch_bano_items(self.banos[i].id.as_str());
            r.push(
                Bano {
                    id: self.banos[i].id.clone(),
                    description: self.banos[i].description.clone(),
                    items,
                },
            );
            i = i + 1;
        }
        r
    }

    /// Adds data set `id`, unless one with that id exists.
    pub fn check_and_insert_bano(&mut self, id: &str, description: &str) -> (r: Result<
        Bano,
        UserError,
    >)
        requires
            old(self).wf(),
        ensures
            final(self).wf(),
            r is Err <==> old(self).has_bano(id@),
            r matches Err(e) ==> e == UserError::DuplicateBano && *final(self) == *old(self),
            r matches Ok(b) ==> {
                &&& b.id@ == id@
                &&& b.description@ == description@
                &&& b.items@.len() == 0
                &&& final(self).banos@.len() == old(self).banos@.len() + 1
                &&& forall|k: int| 0 <= k < old(self).banos@.len() ==> final(self).banos@[k] == old(self).banos@[k]
                &&& final(self).banos@.last().id@ == id@
                &&& final(self).banos@.last().description@ == description@
                &&& final(self).items == old(self).items
                &&& final(self).links == old(self).links
            },
    {
        if self.find_bano(id).is_some() {
            return Err(UserError::DuplicateBano);
        }
        let ghost old_cat = *self;
        self.banos.push(BanoRecord { id: id.to_owned(), description: description.to_owned() });
        proof {
            assert forall|i: int| 0 <= i < self.links@.len() implies self.has_bano(
                (#[trigger] self.links@[i]).0@,
            ) && self.has_item(self.links@[i].1@) by {
                assert(old_cat.has_bano(self.links@[i].0@));
                let j = choose|j: int| 0 <= j < old_cat.banos@.len() && (#[trigger] old_cat.banos@[j]).id@
                    == self.links@[i].0@;
                assert(self.banos@[j] == old_cat.banos@[j]);
            }
            assert forall|i: int, j: int| 0 <= i < j < self.banos@.len() implies (#[trigger] self.banos@[i]).id@
                != (#[trigger] self.banos@[j]).id@ by {
                assert(self.banos@[i] == old_cat.banos@[i]);
                if j < old_cat.banos@.len() {
                    assert(self.banos@[j] == old_cat.banos@[j]);
                }
            }
        }
        Ok(Bano { id: id.to_owned(), description: description.to_owned(), items: Vec::new() })
    }

    /// Makes data set `bano_id` refer to item `item_id`, which is created at
    /// time `now`, not yet downloaded, where no data set refers to it yet.
    pub fn check_and_insert_bano_item(&mut self, bano_id: &str, item_id: &str, now: i64) -> (r: Result<
        Item,
        UserError,
    >)
        requires
            old(self).wf(),
        ensures
            final(self).wf(),
            (r == Err::<Item, UserError>(UserError::UnknownBano)) <==> !old(self).has_bano(bano_id@),
            (r == Err::<Item, UserError>(UserError::DuplicateItem)) <==> old(self).has_bano(bano_id@)
                && old(self).linked(bano_id@, item_id@),
            r is Ok <==> old(self).has_bano(bano_id@) && !old(self).linked(bano_id@, item_id@),
            r is Err ==> *final(self) == *old(self),
            r matches Ok(it) ==> {
                &&& it.id@ == item_id@
                &&& final(self).linked(bano_id@, item_id@)
                &&& final(self).banos == old(self).banos
                &&& final(self).links@.len() == old(self).links@.len() + 1
                &&& forall|k: int| 0 <= k < old(self).links@.len() ==> final(self).links@[k] == old(self).links@[k]
                &&& final(self).links@.last().0@ == bano_id@
                &&& final(self).links@.last().1@ == item_id@
                &&& old(self).has_item(item_id@) ==> final(self).items == old(self).items
                    && old(self).items@.contains(it)
                &&& !old(self).has_item(item_id@) ==> final(self).items@ == old(self).items@.push(it)
                    && it.filestatus == FileStatus::NotAvailable && it.updated_at == now
            },
    {
        let bk = self.find_bano(bano_id);
        if bk.is_none() {
            return Err(UserError::UnknownBano);
        }
        assert(self.banos@[bk.unwrap() as int].id@ == bano_id@);
        if self.is_linked(bano_id, item_id) {
            return Err(UserError::DuplicateItem);
        }
        let ghost old_cat = *self;
        let it = match self.find_item(item_id) {
            Some(k) => self.items[k].copy(),
            None => {
                let fresh = Item::new(item_id.to_owned(), now);
                self.items.push(fresh.copy());
                fresh
            },
        };
        let ghost mid = *self;
        self.links.push((bano_id.to_owned(), item_id.to_owned()));
        proof {
            let n = old_cat.links@.len() as int;
            assert(self.links@[n].0@ == bano_id@ && self.links@[n].1@ == item_id@);
            assert(self.has_item(item_id@)) by {
                if old_cat.has_item(item_id@) {
                    let j = choose|j: int| 0 <= j < old_cat.items@.len() && (#[trigger] old_cat.items@[j]).id@ == item_id@;
                    assert(self.items@[j] == old_cat.items@[j]);
                } else {
                    assert(self.items@[old_cat.items@.len() as int].id@ == item_id@);
                }
            }
            assert forall|i: int| 0 <= i < self.links@.len() implies self.has_bano(
                (#[trigger] self.links@[i]).0@,
            ) && self.has_item(self.links@[i].1@) by {
                assert(self.banos == old_cat.banos);
                if i < n {
                    assert(self.links@[i] == old_cat.links@[i]);
                    assert(old_cat.has_bano(old_cat.links@[i].0@));
                    assert(old_cat.has_item(old_cat.links@[i].1@));
                    let j = choose|j: int| 0 <= j < old_cat.items@.len() && (#[trigger] old_cat.items@[j]).id@
                        == old_cat.links@[i].1@;
                    assert(self.items@[j] == old_cat.items@[j]);
                }
            }
            assert forall|i: int, j: int| 0 <= i < j < self.links@.len() implies !((#[trigger] self.links@[i]).0@
                == (#[trigger] self.links@[j]).0@ && self.links@[i].1@ == self.links@[j].1@) by {
                assert(self.links@[i] == old_cat.links@[i]);
                if j < n {
                    assert(self.links@[j] == old_cat.links@[j]);
                }
            }
            assert forall|i: int, j: int| 0 <= i < j < self.items@.len() implies (#[trigger] self.items@[i]).id@
                != (#[trigger] self.items@[j]).id@ by {
                assert(self.items@[i] == old_cat.items@[i]);
                if j < old_cat.items@.len() {
                    assert(self.items@[j] == old_cat.items@[j]);
                }
            }
            assert forall|k: int| 0 <= k < self.items@.len() implies self.referenced(
                (#[trigger] self.items@[k]).id@,
            ) by {
                if k < old_cat.items@.len() {
                    assert(self.items@[k] == old_cat.items@[k]);
                    let i = choose|i: int| 0 <= i < old_cat.links@.len() && (#[trigger] old_cat.links@[i]).1@
                        == old_cat.items@[k].id@;
                    assert(self.links@[i] == old_cat.links@[i]);
                } else {
                    assert(self.links@[n].1@ == self.items@[k].id@);
                }
            }
            if old_cat.has_item(item_id@) {
                assert(self.items == old_cat.items);
            } else {
                assert(self.items@ =~= old_cat.items@.push(it));
            }
        }
        Ok(it)
    }

    /// Removes the links of data set `bano_id`: all of them, or only the one
    /// to item `item` where `item` is given.
    fn drop_links(&mut self, bano_id: &str, item: Option<&str>)
        requires
            old(self).links_wf(),
        ensures
            final(self).links_wf(),
            final(self).banos == old(self).banos,
            final(self).items == old(self).items,
            forall|b: Seq<char>, it: Seq<char>|
                #[trigger] final(self).linked(b, it) <==> (old(self).linked(b, it) && !(b == bano_id@
                    && (item is None || it == item.unwrap()@))),
            forall|it: Seq<char>|
                #[trigger] final(self).referenced(it) ==> old(self).referenced(it),
    {
        let ghost old_cat = *self;
        let mut kept: Vec<(String, String)> = Vec::new();
        let mut i: usize = 0;
        while i < self.links.len()
            invariant
                *self == old_cat,
                old_cat.links_wf(),
                i <= self.links@.len(),
                forall|k: int|
                    #![trigger kept@[k]]
                    0 <= k < kept@.len() ==> exists|j: int|
                        0 <= j < i && #[trigger] self.links@[j] == kept@[k],
                forall|k: int|
                    0 <= k < kept@.len() ==> !((#[trigger] kept@[k]).0@ == bano_id@ && (item is None
                        || kept@[k].1@ == item.unwrap()@)),
                forall|j: int|
                    0 <= j < i && !((#[trigger] self.links@[j]).0@ == bano_id@ && (item is None
                        || self.links@[j].1@ == item.unwrap()@)) ==> kept@.contains(self.links@[j]),
                forall|k: int, l: int|
                    0 <= k < l < kept@.len() ==> !((#[trigger] kept@[k]).0@ == (#[trigger] kept@[l]).0@
                        && kept@[k].1@ == kept@[l].1@),
            decreases self.links@.len() - i,
        {
            let drop = text_eq(self.links[i].0.as_str(), bano_id) && match item {
                None => true,
                Some(it) => text_eq(self.links[i].1.as_str(), it),
            };
            if !drop {
                let ghost prev = kept@;
                kept.push((self.links[i].0.clone(), self.links[i].1.clone()));
                proof {
                    assert(kept@.last() == self.links@[i as int]);
                    assert forall|k: int| 0 <= k < kept@.len() - 1 implies !((#[trigger] kept@[k]).0@
                        == self.links@[i as int].0@ && kept@[k].1@ == self.links@[i as int].1@) by {
                        assert(kept@[k] == prev[k]);
                        let j = choose|j: int| 0 <= j < i && #[trigger] self.links@[j] == prev[k];
                        assert(!(self.links@[j].0@ == self.links@[i as int].0@ && self.links@[j].1@
                            == self.links@[i as int].1@));
                    }
                    assert forall|k: int|
                        #![trigger kept@[k]]
                        0 <= k < kept@.len() implies exists|j: int|
                            0 <= j < i + 1 && #[trigger] self.links@[j] == kept@[k] by {
                        if k < prev.len() {
                            assert(kept@[k] == prev[k]);
                            let j = choose|j: int| 0 <= j < i && #[trigger] self.links@[j] == prev[k];
                            assert(self.links@[j] == kept@[k]);
                        } else {
                            assert(self.links@[i as int] == kept@[k]);
                        }
                    }
                    assert forall|j: int|
                        0 <= j < i + 1 && !((#[trigger] self.links@[j]).0@ == bano_id@ && (item is None
                            || self.links@[j].1@ == item.unwrap()@)) implies kept@.contains(
                        self.links@[j],
                    ) by {
                        if j < i {
                            let k = choose|k: int| 0 <= k < prev.len() && prev[k] == self.links@[j];
                            assert(kept@[k] == prev[k]);
                        } else {
                            assert(kept@[kept@.len() - 1] == self.links@[j]);
                        }
                    }
                }
            }
            i = i + 1;
        }
        proof {
            assert forall|k: int| #![trigger kept@[k]] 0 <= k < kept@.len() implies exists|j: int|
                0 <= j < old_cat.links@.len() && #[trigger] old_cat.links@[j] == kept@[k] by {
                let t = kept@[k];
                let j = choose|j: int| 0 <= j < i && #[trigger] self.links@[j] == kept@[k];
                assert(old_cat.links@[j] == kept@[k]);
            }
        }
        self.links = kept;
        proof {
            assert forall|b: Seq<char>, it: Seq<char>|
                #[trigger] self.linked(b, it) <==> (old_cat.linked(b, it) && !(b == bano_id@ && (item is None
                    || it == item.unwrap()@))) by {
                if self.linked(b, it) {
                    let k = choose|k: int|
                        0 <= k < self.links@.len() && (#[trigger] self.links@[k]).0@ == b
                            && self.links@[k].1@ == it;
                    let j = choose|j: int| 0 <= j < old_cat.links@.len() && #[trigger] old_cat.links@[j]
                        == self.links@[k];
                }
                if old_cat.linked(b, it) && !(b == bano_id@ && (item is None || it == item.unwrap()@)) {
                    let j = choose|j: int|
                        0 <= j < old_cat.links@.len() && (#[trigger] old_cat.links@[j]).0@ == b
                            && old_cat.links@[j].1@ == it;
                    let k = choose|k: int| 0 <= k < self.links@.len() && self.links@[k] == old_cat.links@[j];
                    assert(self.links@[k].0@ == b);
                }
            }
            assert forall|it: Seq<char>| #[trigger] self.referenced(it) implies old_cat.referenced(it) by {
                let k = choose|k: int| 0 <= k < self.links@.len() && (#[trigger] self.links@[k]).1@ == it;
                let j = choose|j: int| 0 <= j < old_cat.links@.len() && #[trigger] old_cat.links@[j]
                    == self.links@[k];
            }
            assert forall|k: int| 0 <= k < self.links@.len() implies self.has_bano(
                (#[trigger] self.links@[k]).0@,
            ) && self.has_item(self.links@[k].1@) by {
                let j = choose|j: int| 0 <= j < old_cat.links@.len() && #[trigger] old_cat.links@[j]
                    == self.links@[k];
                assert(old_cat.has_bano(old_cat.links@[j].0@));
                assert(old_cat.has_item(old_cat.links@[j].1@));
                let b = choose|b: int| 0 <= b < old_cat.banos@.len() && (#[trigger] old_cat.banos@[b]).id@
                    == old_cat.links@[j].0@;
                assert(self.banos@[b] == old_cat.banos@[b]);
                let m = choose|m: int| 0 <= m < old_cat.items@.len() && (#[trigger] old_cat.items@[m]).id@
                    == old_cat.links@[j].1@;
                assert(self.items@[m] == old_cat.items@[m]);
            }
        }
    }

    /// Removes the items that no data set refers to.
    fn drop_orphans(&mut self)
        requires
            old(self).links_wf(),
        ensures
            final(self).wf(),
            final(self).banos == old(self).banos,
            final(self).links == old(self).links,
            forall|b: Seq<char>, it: Seq<char>|
                #[trigger] final(self).linked(b, it) == old(self).linked(b, it),
            forall|it: Seq<char>| #[trigger] final(self).referenced(it) == old(self).referenced(it),
            forall|x: Seq<char>| #[trigger] final(self).has_bano(x) == old(self).has_bano(x),
            forall|k: int|
                0 <= k < final(self).items@.len() ==> old(self).items@.contains(
                    #[trigger] final(self).items@[k],
                ),
            forall|j: int|
                0 <= j < old(self).items@.len() ==> (final(self).items@.contains(
                    #[trigger] old(self).items@[j],
                ) <==> old(self).referenced(old(self).items@[j].id@)),
    {
        let ghost old_cat = *self;
        let mut kept: Vec<Item> = Vec::new();
        let mut i: usize = 0;
        while i < self.items.len()
            invariant
                *self == old_cat,
                old_cat.links_wf(),
                i <= self.items@.len(),
                forall|k: int|
                    #![trigger kept@[k]]
                    0 <= k < kept@.len() ==> exists|j: int|
                        0 <= j < i && #[trigger] self.items@[j] == kept@[k],
                forall|k: int| 0 <= k < kept@.len() ==> self.referenced((#[trigger] kept@[k]).id@),
                forall|j: int|
                    0 <= j < i ==> (kept@.contains(#[trigger] self.items@[j]) <==> self.referenced(
                        self.items@[j].id@,
                    )),
                forall|k: int, l: int|
                    0 <= k < l < kept@.len() ==> (#[trigger] kept@[k]).id@ != (#[trigger] kept@[l]).id@,
            decreases self.items@.len() - i,
        {
            let keep = self.is_referenced(self.items[i].id.as_str());
            let ghost prev = kept@;
            if keep {
                kept.push(self.items[i].copy());
            }
            proof {
                assert forall|k: int|
                    #![trigger kept@[k]]
                    0 <= k < kept@.len() implies exists|j: int|
                        0 <= j < i + 1 && #[trigger] self.items@[j] == kept@[k] by {
                    if k < prev.len() {
                        assert(kept@[k] == prev[k]);
                        let j = choose|j: int| 0 <= j < i && #[trigger] self.items@[j] == prev[k];
                        assert(self.items@[j] == kept@[k]);
                    } else {
                        assert(self.items@[i as int] == kept@[k]);
                    }
                }
                assert forall|j: int|
                    0 <= j < i + 1 implies (kept@.contains(#[trigger] self.items@[j]) <==> self.referenced(
                        self.items@[j].id@,
                    )) by {
                    if j < i {
                        if kept@.contains(self.items@[j]) && !prev.contains(self.items@[j]) {
                            assert(keep);
                            assert(kept@.last() == self.items@[i as int]);
                            let k = choose|k: int| 0 <= k < kept@.len() && kept@[k] == self.items@[j];
                            if k < prev.len() {
                                assert(prev[k] == kept@[k]);
                            } else {
                                assert(self.items@[j].id@ != self.items@[i as int].id@);
                            }
                        }
                        if prev.contains(self.items@[j]) {
                            let k = choose|k: int| 0 <= k < prev.len() && prev[k] == self.items@[j];
                            assert(kept@[k] == prev[k]);
                        }
                    } else {
                        if keep {
                            assert(kept@[kept@.len() - 1] == self.items@[j]);
                        } else if kept@.contains(self.items@[j]) {
                            let k = choose|k: int| 0 <= k < kept@.len() && kept@[k] == self.items@[j];
                            let j2 = choose|j2: int| 0 <= j2 < i && #[trigger] self.items@[j2] == kept@[k];
                            assert(self.items@[j2].id@ != self.items@[i as int].id@);
                        }
                    }
                }
                if keep {
                    assert forall|k: int| 0 <= k < kept@.len() - 1 implies (#[trigger] kept@[k]).id@
                        != self.items@[i as int].id@ by {
                        assert(kept@[k] == prev[k]);
                        let j = choose|j: int| 0 <= j < i && #[trigger] self.items@[j] == prev[k];
                    }
                }
            }
            i = i + 1;
        }
        proof {
            assert forall|k: int| #![trigger kept@[k]] 0 <= k < kept@.len() implies exists|j: int|
                0 <= j < old_cat.items@.len() && #[trigger] old_cat.items@[j] == kept@[k] by {
                let t = kept@[k];
                let j = choose|j: int| 0 <= j < i && #[trigger] self.items@[j] == kept@[k];
                assert(old_cat.items@[j] == kept@[k]);
            }
        }
        self.items = kept;
        proof {
            assert forall|b: Seq<char>, it: Seq<char>| #[trigger] self.linked(b, it) == old_cat.linked(b, it) by {
                if old_cat.linked(b, it) {
                    let j = choose|j: int| 0 <= j < old_cat.links@.len() && (#[trigger] old_cat.links@[j]).0@ == b
                        && old_cat.links@[j].1@ == it;
                    assert(self.links@[j] == old_cat.links@[j]);
                }
            }
            assert forall|it: Seq<char>| #[trigger] self.referenced(it) == old_cat.referenced(it) by {
                if old_cat.referenced(it) {
                    let j = choose|j: int| 0 <= j < old_cat.links@.len() && (#[trigger] old_cat.links@[j]).1@ == it;
                    assert(self.links@[j] == old_cat.links@[j]);
                }
            }
            assert forall|x: Seq<char>| #[trigger] self.has_bano(x) == old_cat.has_bano(x) by {
                if old_cat.has_bano(x) {
                    let j = choose|j: int| 0 <= j < old_cat.banos@.len() && (#[trigger] old_cat.banos@[j]).id@ == x;
                    assert(self.banos@[j] == old_cat.banos@[j]);
                }
            }
            assert forall|k: int| 0 <= k < self.items@.len() implies old_cat.items@.contains(
                #[trigger] self.items@[k],
            ) by {
                let j = choose|j: int| 0 <= j < old_cat.items@.len() && #[trigger] old_cat.items@[j]
                    == self.items@[k];
            }
            assert forall|k: int| 0 <= k < self.links@.len() implies self.has_bano(
                (#[trigger] self.links@[k]).0@,
            ) && self.has_item(self.links@[k].1@) by {
                assert(old_cat.has_item(old_cat.links@[k].1@));
                let j = choose|j: int| 0 <= j < old_cat.items@.len() && (#[trigger] old_cat.items@[j]).id@
                    == old_cat.links@[k].1@;
                assert(old_cat.referenced(old_cat.items@[j].id@));
                assert(self.items@.contains(old_cat.items@[j]));
                let m = choose|m: int| 0 <= m < self.items@.len() && self.items@[m] == old_cat.items@[j];
                assert(self.items@[m].id@ == self.links@[k].1@);
            }
        }
    }

    /// Makes data set `bano_id` no longer refer to item `item_id`; the item
    /// goes where no other data set refers to it.
    pub fn remove_bano_item(&mut self, bano_id: &str, item_id: &str)
        requires
            old(self).wf(),
        ensures
            final(self).wf(),
            final(self).banos == old(self).banos,
            forall|b: Seq<char>, it: Seq<char>|
                #[trigger] final(self).linked(b, it) <==> (old(self).linked(b, it) && !(b == bano_id@
                    && it == item_id@)),
            forall|k: int|
                0 <= k < final(self).items@.len() ==> old(self).items@.contains(
                    #[trigger] final(self).items@[k],
                ),
            forall|j: int|
                0 <= j < old(self).items@.len() ==> (final(self).items@.contains(
                    #[trigger] old(self).items@[j],
                ) <==> final(self).referenced(old(self).items@[j].id@)),
    {
        self.drop_links(bano_id, Some(item_id));
        self.drop_orphans();
    }

    /// Removes data set `id` and its links; the items that no other data
    /// set refers to go with it. Returns the removed data set.
    pub fn remove_bano(&mut self, id: &str) -> (r: Result<BanoRecord, UserError>)
        requires
            old(self).wf(),
        ensures
            final(self).wf(),
            r is Err <==> !old(self).has_bano(id@),
            r matches Err(e) ==> e == UserError::UnknownBano && *final(self) == *old(self),
            r matches Ok(b) ==> {
                &&& b.id@ == id@
                &&& forall|x: Seq<char>|
                    #[trigger] final(self).has_bano(x) <==> (old(self).has_bano(x) && x != id@)
                &&& forall|b: Seq<char>, it: Seq<char>|
                    #[trigger] final(self).linked(b, it) <==> (old(self).linked(b, it) && b != id@)
                &&& forall|k: int|
                    0 <= k < final(self).items@.len() ==> old(self).items@.contains(
                        #[trigger] final(self).items@[k],
                    )
                &&& forall|j: int|
                    0 <= j < old(self).items@.len() ==> (final(self).items@.contains(
                        #[trigger] old(self).items@[j],
                    ) <==> final(self).referenced(old(self).items@[j].id@))
            },
    {
        let pos = match self.find_bano(id) {
            Some(p) => p,
            None => {
                return Err(UserError::UnknownBano);
            },
        };
        let ghost old_cat = *self;
        self.drop_links(id, None);
        let ghost mid = *self;
        let removed = self.banos.remove(pos);
        proof {
            assert forall|b: Seq<char>, it: Seq<char>| #[trigger] self.linked(b, it) == mid.linked(b, it) by {
                if mid.linked(b, it) {
                    let j = choose|j: int| 0 <= j < mid.links@.len() && (#[trigger] mid.links@[j]).0@ == b
                        && mid.links@[j].1@ == it;
                    assert(self.links@[j] == mid.links@[j]);
                }
            }
            assert forall|it: Seq<char>| #[trigger] self.referenced(it) == mid.referenced(it) by {
                if mid.referenced(it) {
                    let j = choose|j: int| 0 <= j < mid.links@.len() && (#[trigger] mid.links@[j]).1@ == it;
                    assert(self.links@[j] == mid.links@[j]);
                }
            }
            assert forall|x: Seq<char>| #[trigger] self.has_bano(x) <==> (old_cat.has_bano(x) && x != id@) by {
                if self.has_bano(x) {
                    let k = choose|k: int| 0 <= k < self.banos@.len() && (#[trigger] self.banos@[k]).id@ == x;
                    if k < pos {
                        assert(self.banos@[k] == old_cat.banos@[k]);
                        assert(old_cat.banos@[k].id@ != old_cat.banos@[pos as int].id@);
                    } else {
                        assert(self.banos@[k] == old_cat.banos@[k + 1]);
                        assert(old_cat.banos@[pos as int].id@ != old_cat.banos@[k + 1].id@);
                    }
                }
                if old_cat.has_bano(x) && x != id@ {
                    let k = choose|k: int| 0 <= k < old_cat.banos@.len() && (#[trigger] old_cat.banos@[k]).id@ == x;
                    if k < pos {
                        assert(self.banos@[k] == old_cat.banos@[k]);
                    } else {
                        assert(k != pos);
                        assert(self.banos@[k - 1] == old_cat.banos@[k]);
                    }
                }
            }
            assert forall|i: int, j: int| 0 <= i < j < self.banos@.len() implies (#[trigger] self.banos@[i]).id@
                != (#[trigger] self.banos@[j]).id@ by {
                let oi = if i < pos { i } else { i + 1 };
                let oj = if j < pos { j } else { j + 1 };
                assert(self.banos@[i] == old_cat.banos@[oi]);
                assert(self.banos@[j] == old_cat.banos@[oj]);
            }
            assert forall|k: int| 0 <= k < self.links@.len() implies self.has_bano(
                (#[trigger] self.links@[k]).0@,
            ) && self.has_item(self.links@[k].1@) by {
                let l = self.links@[k];
                assert(mid.linked(l.0@, l.1@));
                assert(mid.has_bano(l.0@));
                assert(l.0@ != id@);
            }
        }
        self.drop_orphans();
        Ok(removed)
    }

    /// Takes a request to download item `item_id`, as `download_bano_item`
    /// does for the item itself; `None` where there is no such item.
    pub fn acquire_item(&mut self, item_id: &str, now: i64) -> (r: Option<Acquisition>)
        requires
            old(self).wf(),
        ensures
            final(self).wf(),
            r is None <==> !old(self).has_item(item_id@),
            r is None ==> *final(self) == *old(self),
            r matches Some(a) ==> {
                &&& final(self).banos == old(self).banos
                &&& final(self).links == old(self).links
                &&& final(self).items@.len() == old(self).items@.len()
                &&& exists|k: int|
                    0 <= k < old(self).items@.len() && (#[trigger] old(self).items@[k]).id@ == item_id@
                        && acquired(old(self).items@[k], final(self).items@[k], a, now) && forall|j: int|
                        0 <= j < old(self).items@.len() && j != k ==> final(self).items@[j] == old(
                            self,
                        ).items@[j]
            },
    {
        let k = match self.find_item(item_id) {
            Some(k) => k,
            None => {
                return None;
            },
        };
        let ghost old_cat = *self;
        let mut it = self.items[k].copy();
        let a = download_bano_item(&mut it, now);
        self.items[k] = it;
        proof {
            lemma_item_replaced(old_cat, *self, k as int);
        }
        Some(a)
    }

    /// Records how the transfer of item `item_id` ended, as
    /// `download_bano_item_task` does for the item itself. Returns whether
    /// the item was there with a transfer under way; otherwise nothing is
    /// changed.
    pub fn record_transfer(
        &mut self,
        item_id: &str,
        outcome: Result<&[u8], FetchFailure>,
        now: i64,
    ) -> (r: bool)
        requires
            old(self).wf(),
        ensures
            final(self).wf(),
            !r ==> *final(self) == *old(self),
            r <==> exists|k: int|
                0 <= k < old(self).items@.len() && (#[trigger] old(self).items@[k]).id@ == item_id@
                    && old(self).items@[k].filestatus == FileStatus::DownloadInProgress,
            r ==> {
                &&& final(self).banos == old(self).banos
                &&& final(self).links == old(self).links
                &&& final(self).items@.len() == old(self).items@.len()
                &&& exists|k: int|
                    0 <= k < old(self).items@.len() && (#[trigger] old(self).items@[k]).id@ == item_id@
                        && transfer_recorded(old(self).items@[k], final(self).items@[k], outcome, now)
                        && forall|j: int|
                        0 <= j < old(self).items@.len() && j != k ==> final(self).items@[j] == old(
                            self,
                        ).items@[j]
            },
    {
        let k = match self.find_item(item_id) {
            Some(k) => k,
            None => {
                return false;
            },
        };
        if self.items[k].filestatus != FileStatus::DownloadInProgress {
            proof {
                assert forall|m: int|
                    0 <= m < self.items@.len() && (#[trigger] self.items@[m]).id@ == item_id@ implies self.items@[m].filestatus != FileStatus::DownloadInProgress by {
                    if m != k {
                        if m < k {
                            assert(self.items@[m].id@ != self.items@[k as int].id@);
                        } else {
                            assert(self.items@[k as int].id@ != self.items@[m].id@);
                        }
                    }
                }
            }
            return false;
        }
        let ghost old_cat = *self;
        let mut it = self.items[k].copy();
        download_bano_item_task(&mut it, outcome, now);
        self.items[k] = it;
        proof {
            lemma_item_replaced(old_cat, *self, k as int);
        }
        true
    }
}

/// Replacing an item by one with the same id keeps a catalog well formed.
proof fn lemma_item_replaced(a: BanoCatalog, b: BanoCatalog, k: int)
    requires
        a.wf(),
        0 <= k < a.items@.len(),
        b.banos == a.banos,
        b.links == a.links,
        b.items@.len() == a.items@.len(),
        b.items@[k].id == a.items@[k].id,
        forall|j: int| 0 <= j < a.items@.len() && j != k ==> b.items@[j] == a.items@[j],
    ensures
        b.wf(),
{
    assert forall|i: int, j: int| 0 <= i < j < b.items@.len() implies (#[trigger] b.items@[i]).id@
        != (#[trigger] b.items@[j]).id@ by {
        assert(a.items@[i].id@ != a.items@[j].id@);
    }
    assert forall|i: int| 0 <= i < b.links@.len() implies b.has_bano((#[trigger] b.links@[i]).0@)
        && b.has_item(b.links@[i].1@) by {
        assert(a.has_bano(a.links@[i].0@));
        let x = choose|x: int| 0 <= x < a.banos@.len() && (#[trigger] a.banos@[x]).id@ == a.links@[i].0@;
        assert(b.banos@[x] == a.banos@[x]);
        assert(a.has_item(a.links@[i].1@));
        let m = choose|m: int| 0 <= m < a.items@.len() && (#[trigger] a.items@[m]).id@ == a.links@[i].1@;
        assert(b.items@[m].id@ == a.items@[m].id@);
    }
    assert forall|m: int| 0 <= m < b.items@.len() implies b.referenced((#[trigger] b.items@[m]).id@) by {
        assert(a.referenced(a.items@[m].id@));
        let i = choose|i: int| 0 <= i < a.links@.len() && (#[trigger] a.links@[i]).1@ == a.items@[m].id@;
        assert(b.links@[i] == a.links@[i]);
        assert(b.items@[m].id@ == a.items@[m].id@);
    }
}

} // verus!

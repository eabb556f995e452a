//! The catalog: one sellable item per id with stock and price, with the
//! persisted-text load and save of the whole collection and the
//! quantity-reservation rules.

use vstd::prelude::*;
use vstd::pervasive::VecAdditionalExecFns;
use crate::codec::{
    Diag, ParseError, RawV, NEWLINE, copy_bytes, diag_views, format_line, load_diags,
    load_raw_find, parse_raw, spec_format_line, spec_parse_line, spec_split, split_bytes,
    views_of,
};
use crate::keyed::{Keyed, find_by_key, lemma_find_insert, lemma_find_update, sorted_by_key};

verus! {

/// One catalog item: `quantity` units in stock at unit price `price`.
#[derive(Debug)]
pub struct Store {
    pub id: i64,
    pub name: Vec<u8>,
    pub quantity: i64,
    pub price: i64,
}

/// The view of a catalog item.
pub struct StoreV {
    pub id: int,
    pub name: Seq<u8>,
    pub quantity: int,
    pub price: int,
}

impl View for Store {
    type V = StoreV;

    open spec fn view(&self) -> StoreV {
        StoreV {
            id: self.id as int,
            name: self.name@,
            quantity: self.quantity as int,
            price: self.price as int,
        }
    }
}

impl Keyed for StoreV {
    open spec fn key(&self) -> int {
        self.id
    }
}

/// The catalog item carried by a parsed record.
pub open spec fn store_of_raw(r: RawV) -> StoreV {
    StoreV { id: r.id, name: r.name, quantity: r.quantity, price: r.value }
}

/// The record carried by a catalog item.
pub open spec fn raw_of_store(c: StoreV) -> RawV {
    RawV { id: c.id, name: c.name, quantity: c.quantity, value: c.price }
}

pub open spec fn opt_store(r: Option<RawV>) -> Option<StoreV> {
    match r {
        Some(v) => Some(store_of_raw(v)),
        None => None,
    }
}

/// The catalog collection: at most one item per id, kept in ascending id
/// order.
pub struct Stores {
    items: Vec<Store>,
}

impl View for Stores {
    type V = Seq<StoreV>;

    closed spec fn view(&self) -> Seq<StoreV> {
        Seq::new(self.items@.len(), |i: int| self.items@[i]@)
    }
}

/// What a reservation request came to.
pub enum Reservation {
    /// The item was found with sufficient stock: the replacement catalog
    /// record carrying the reduced quantity, and the total price of the
    /// reservation.  The catalog itself is untouched; the caller decides
    /// whether to insert the replacement.
    Reserved { item: Store, total: i64 },
    /// The item exists, but its stock is zero or below the requested
    /// quantity.
    InsufficientStock,
    /// No catalog item carries the requested id.
    NotFound,
}

impl Stores {
    /// Items stand in strictly ascending id order, so ids are unique.
    pub open spec fn wf(&self) -> bool {
        sorted_by_key(self@)
    }

    /// An empty catalog.
    pub fn new() -> (r: Self)
        ensures
            r@ == Seq::<StoreV>::empty(),
            r.wf(),
    {
        let r = Stores { items: Vec::new() };
        proof {
            assert(r@ =~= Seq::<StoreV>::empty());
        }
        r
    }

    pub fn len(&self) -> (r: usize)
        ensures
            r == self@.len(),
    {
        self.items.len()
    }

    pub fn get(&self, i: usize) -> (r: &Store)
        requires
            i < self@.len(),
        ensures
            r@ == self@[i as int],
    {
        &self.items[i]
    }

    /// Upserts an item by id: the catalog then holds `store` under its id,
    /// and every other id is untouched (last write wins).
    pub fn addItem(&mut self, store: Store)
        requires
            old(self).wf(),
        ensures
            final(self).wf(),
            find_by_key(final(self)@, store@.id) == Some(store@),
            forall|k: int| k != store@.id
                ==> find_by_key(final(self)@, k) == find_by_key(old(self)@, k),
    {
        let mut i: usize = 0;
        while i < self.items.len() && self.items[i].id < store.id
            invariant
                0 <= i <= self@.len(),
                forall|j: int| 0 <= j < i ==> #[trigger] self@[j].id < store@.id,
            decreases self@.len() - i,
        {
            proof {
                assert(self@[i as int].id == self.items@[i as int]@.id);
            }
            i = i + 1;
        }
        let ghost old_view = self@;
        if i < self.items.len() && self.items[i].id == store.id {
            self.items.set(i, store);
            proof {
                assert(self@ =~= old_view.update(i as int, store@));
                lemma_find_update(old_view, i as int, store@);
            }
        } else {
            self.items.insert(i, store);
            proof {
                assert(self@ =~= old_view.insert(i as int, store@));
                if i < old_view.len() {
                    assert(old_view[i as int].id != store@.id
                        && !(old_view[i as int].id < store@.id));
                }
                lemma_find_insert(old_view, i as int, store@);
            }
        }
    }

    /// Hands the items out in ascending id order.
    pub fn into_vec(self) -> (r: Vec<Store>)
        ensures
            r@.len() == self@.len(),
            forall|i: int| 0 <= i < r@.len() ==> #[trigger] r@[i]@ == self@[i],
            self.wf() ==> forall|i: int, j: int| 0 <= i < j < r@.len()
                ==> #[trigger] r@[i]@.id < #[trigger] r@[j]@.id,
    {
        proof {
            if self.wf() {
                assert forall|i: int, j: int| 0 <= i < j < self.items@.len()
                    implies #[trigger] self.items@[i]@.id < #[trigger] self.items@[j]@.id by {
                    assert(self@[i] == self.items@[i]@);
                    assert(self@[j] == self.items@[j]@);
                    assert(self@[i].key() < self@[j].key());
                }
            }
        }
        self.items
    }

    /// An independent copy of the catalog with the same contents.
    pub fn duplicate(&self) -> (r: Stores)
        ensures
            r@ == self@,
    {
        let mut items: Vec<Store> = Vec::new();
        let mut i: usize = 0;
        while i < self.items.len()
            invariant
                0 <= i <= self@.len(),
                items@.len() == i,
                forall|j: int| 0 <= j < i ==> #[trigger] items@[j]@ == self@[j],
            decreases self@.len() - i,
        {
            let s = &self.items[i];
            proof {
                assert(self@[i as int] == self.items@[i as int]@);
            }
            items.push(Store {
                id: s.id,
                name: copy_bytes(s.name.as_slice()),
                quantity: s.quantity,
                price: s.price,
            });
            i = i + 1;
        }
        let r = Stores { items };
        proof {
            assert(r@ =~= self@);
        }
        r
    }

    /// The catalog item with this id, if any.
    pub fn availability(&self, id: i64) -> (r: Option<&Store>)
        ensures
            match r {
                Some(st) => find_by_key(self@, id as int) == Some(st@),
                None => find_by_key(self@, id as int) == None::<StoreV>,
            },
    {
        let ghost whole = self@;
        let mut i: usize = 0;
        proof {
            assert(self@.skip(0) =~= self@);
        }
        while i < self.items.len()
            invariant
                0 <= i <= self@.len(),
                whole == self@,
                find_by_key(whole, id as int) == find_by_key(self@.skip(i as int), id as int),
            decreases self@.len() - i,
        {
            proof {
                assert(self@.skip(i as int)[0] == self@[i as int]);
                assert(self@.skip(i as int).skip(1) =~= self@.skip(i + 1));
                assert(self@[i as int].id == self.items@[i as int]@.id);
            }
            if self.items[i].id == id {
                return Some(&self.items[i]);
            }
            i = i + 1;
        }
        proof {
            assert(self@.skip(self@.len() as int) =~= Seq::<StoreV>::empty());
        }
        None
    }

    /// Validates a quantity request against the catalog without touching it:
    /// rejected when the id is unknown, when the stock is zero, or when the
    /// request exceeds the stock; otherwise the replacement record with the
    /// deducted stock and the total price are handed back.
    pub fn reserve(&self, id: i64, quantity: i64) -> (r: Reservation)
        requires
            self.wf(),
            match find_by_key(self@, id as int) {
                Some(st) => (quantity <= st.quantity && st.quantity != 0) ==> {
                    &&& i64::MIN <= st.price * quantity <= i64::MAX
                    &&& i64::MIN <= st.quantity - quantity <= i64::MAX
                },
                None => true,
            },
        ensures
            match find_by_key(self@, id as int) {
                Some(st) => {
                    if quantity > st.quantity || st.quantity == 0 {
                        r is InsufficientStock
                    } else {
                        r matches Reservation::Reserved { item, total }
                            && item@ == (StoreV {
                                id: st.id,
                                name: st.name,
                                quantity: st.quantity - quantity,
                                price: st.price,
                            })
                            && total == st.price * quantity
                    }
                },
                None => r is NotFound,
            },
    {
        match self.availability(id) {
            None => Reservation::NotFound,
            Some(st) => {
                if quantity > st.quantity || st.quantity == 0 {
                    Reservation::InsufficientStock
                } else {
                    let item = Store {
                        id: st.id,
                        name: copy_bytes(st.name.as_slice()),
                        quantity: st.quantity - quantity,
                        price: st.price,
                    };
                    let total = st.price * quantity;
                    Reservation::Reserved { item, total }
                }
            },
        }
    }
}

/// Parses one catalog line, as `spec_parse_line` describes.
pub fn parseStore(store: &[u8]) -> (r: Result<Store, ParseError>)
    ensures
        match r {
            Ok(c) => spec_parse_line(store@) == Ok::<RawV, ParseError>(raw_of_store(c@)),
            Err(e) => spec_parse_line(store@) == Err::<RawV, ParseError>(e),
        },
{
    match parse_raw(store) {
        Ok((id, name, quantity, price)) => Ok(Store { id, name, quantity, price }),
        Err(e) => Err(e),
    }
}

/// Loads a whole catalog from persisted text: lines split on newlines,
/// empty lines skipped, unparsable lines dropped (reported when `verbose`),
/// and later lines overwriting earlier ones of the same id.
pub fn parseStores(text: &[u8], verbose: bool) -> (r: (Stores, Vec<Diag>))
    ensures
        r.0.wf(),
        forall|k: int| #[trigger] find_by_key(r.0@, k)
            == opt_store(load_raw_find(spec_split(text@, NEWLINE), k)),
        verbose ==> diag_views(r.1@) == load_diags(spec_split(text@, NEWLINE)),
        !verbose ==> r.1@.len() == 0,
{
    let lines = split_bytes(text, NEWLINE);
    let ghost lv = spec_split(text@, NEWLINE);
    proof {
        assert(lines@.len() == lv.len());
        assert forall|j: int| 0 <= j < lines@.len() implies #[trigger] lines@[j]@ == lv[j] by {
            assert(views_of(lines@)[j] == lines@[j]@);
        }
    }
    let mut strs = Stores::new();
    let mut diags: Vec<Diag> = Vec::new();
    let mut i: usize = 0;
    proof {
        assert(lv.take(0) =~= Seq::<Seq<u8>>::empty());
        assert(diag_views(diags@) =~= load_diags(lv.take(0)));
    }
    while i < lines.len()
        invariant
            0 <= i <= lines@.len(),
            lines@.len() == lv.len(),
            forall|j: int| 0 <= j < lines@.len() ==> #[trigger] lines@[j]@ == lv[j],
            strs.wf(),
            forall|k: int| #[trigger] find_by_key(strs@, k)
                == opt_store(load_raw_find(lv.take(i as int), k)),
            verbose ==> diag_views(diags@) == load_diags(lv.take(i as int)),
            !verbose ==> diags@.len() == 0,
        decreases lines@.len() - i,
    {
        proof {
            assert(lv.take(i + 1).drop_last() =~= lv.take(i as int));
            assert(lv.take(i + 1).last() == lv[i as int]);
        }
        let line = &lines[i];
        if line.len() > 0 {
            match parse_raw(line.as_slice()) {
                Ok((id, name, quantity, price)) => {
                    let c = Store { id, name, quantity, price };
                    proof {
                        assert(store_of_raw(spec_parse_line(lv[i as int])->Ok_0) == c@);
                    }
                    strs.addItem(c);
                    proof {
                        assert forall|k: int| #[trigger] find_by_key(strs@, k)
                            == opt_store(load_raw_find(lv.take(i + 1), k)) by {
                        }
                        if verbose {
                            assert(load_diags(lv.take(i + 1)) =~= load_diags(lv.take(i as int)));
                        }
                    }
                },
                Err(e) => {
                    if verbose {
                        diags.push(Diag { line: i + 1, error: e, text: copy_bytes(line.as_slice()) });
                        proof {
                            assert(diag_views(diags@) =~= load_diags(lv.take(i + 1)));
                        }
                    }
                    proof {
                        assert forall|k: int| #[trigger] find_by_key(strs@, k)
                            == opt_store(load_raw_find(lv.take(i + 1), k)) by {
                        }
                    }
                },
            }
        } else {
            proof {
                assert(lv[i as int].len() == 0);
                assert forall|k: int| #[trigger] find_by_key(strs@, k)
                    == opt_store(load_raw_find(lv.take(i + 1), k)) by {
                }
                if verbose {
                    assert(load_diags(lv.take(i + 1)) =~= load_diags(lv.take(i as int)));
                }
            }
        }
        i = i + 1;
    }
    proof {
        assert(lv.take(lv.len() as int) =~= lv);
    }
    (strs, diags)
}

/// The persisted header of the catalog file: `id,name,stock,price` and a
/// newline.
pub open spec fn store_header() -> Seq<u8> {
    seq![105u8, 100, 44, 110, 97, 109, 101, 44, 115, 116, 111, 99, 107, 44, 112, 114, 105, 99, 101, 10]
}

/// The record lines of a saved catalog, in collection order, items of
/// quantity zero omitted.
pub open spec fn store_save_lines(s: Seq<StoreV>) -> Seq<u8>
    decreases s.len(),
{
    if s.len() == 0 {
        Seq::empty()
    } else {
        store_save_lines(s.drop_last()) + (if s.last().quantity == 0 {
            Seq::<u8>::empty()
        } else {
            spec_format_line(raw_of_store(s.last()))
        })
    }
}

/// Round trip: parsing a formatted catalog line gives back the item, for
/// every item a record can carry faithfully.
pub proof fn lemma_store_round_trip(c: StoreV)
    requires
        crate::codec::valid_record(raw_of_store(c)),
    ensures
        spec_parse_line(spec_format_line(raw_of_store(c))) == Ok::<RawV, ParseError>(raw_of_store(c)),
        store_of_raw(raw_of_store(c)) == c,
{
    crate::codec::lemma_parse_format(raw_of_store(c));
}

/// The catalog without its zero-quantity items.
pub open spec fn nonzero_stores(s: Seq<StoreV>) -> Seq<StoreV>
    decreases s.len(),
{
    if s.len() == 0 {
        s
    } else if s.last().quantity != 0 {
        nonzero_stores(s.drop_last()).push(s.last())
    } else {
        nonzero_stores(s.drop_last())
    }
}

/// An item of quantity zero never reaches the saved output: the saved
/// lines are those of the collection with its zero-quantity items removed.
pub proof fn lemma_save_omits_zero_stock(s: Seq<StoreV>)
    ensures
        store_save_lines(s) == store_save_lines(nonzero_stores(s)),
    decreases s.len(),
{
    if s.len() > 0 {
        lemma_save_omits_zero_stock(s.drop_last());
        let f = nonzero_stores(s);
        let fd = nonzero_stores(s.drop_last());
        if s.last().quantity != 0 {
            assert(f == fd.push(s.last()));
            assert(f.drop_last() =~= fd);
            assert(f.last() == s.last());
        } else {
            assert(f == fd);
            assert(store_save_lines(s) =~= store_save_lines(s.drop_last()));
        }
    }
}

/// Saving a catalog twice without mutation yields identical persisted
/// text: the text is a function of the collection's contents alone.
pub proof fn lemma_save_item_idempotent(v: Seq<StoreV>, t1: Seq<u8>, t2: Seq<u8>)
    requires
        t1 == store_header() + store_save_lines(v),
        t2 == store_header() + store_save_lines(v),
    ensures
        t1 == t2,
{
}

/// The whole persisted text of a catalog: header, then one line per item in
/// ascending id order, items of quantity zero omitted.
pub fn saveItem(stores: &Stores) -> (out: Vec<u8>)
    requires
        stores.wf(),
    ensures
        out@ == store_header() + store_save_lines(stores@),
{
    let mut out: Vec<u8> = Vec::new();
    let header: [u8; 20] = [
        105, 100, 44, 110, 97, 109, 101, 44, 115, 116, 111, 99, 107, 44, 112, 114, 105, 99, 101,
        10,
    ];
    let mut h: usize = 0;
    while h < 20
        invariant
            0 <= h <= 20,
            header@ =~= store_header(),
            out@ =~= store_header().take(h as int),
        decreases 20 - h,
    {
        out.push(header[h]);
        proof {
            assert(out@ =~= store_header().take(h + 1));
        }
        h = h + 1;
    }
    proof {
        assert(out@ =~= store_header());
        assert(store_save_lines(stores@.take(0)) =~= Seq::<u8>::empty());
        assert(out@ =~= store_header() + store_save_lines(stores@.take(0)));
    }
    let mut i: usize = 0;
    let n = stores.len();
    while i < n
        invariant
            0 <= i <= n == stores@.len(),
            stores.wf(),
            out@ == store_header() + store_save_lines(stores@.take(i as int)),
        decreases n - i,
    {
        proof {
            assert(stores@.take(i + 1).drop_last() =~= stores@.take(i as int));
            assert(stores@.take(i + 1).last() == stores@[i as int]);
        }
        let c = stores.get(i);
        if c.quantity != 0 {
            let line = format_line(c.id, c.name.as_slice(), c.quantity, c.price);
            let mut j: usize = 0;
            let m = line.len();
            let ghost pre = out@;
            while j < m
                invariant
                    0 <= j <= m == line@.len(),
                    out@ =~= pre + line@.take(j as int),
                decreases m - j,
            {
                out.push(line[j]);
                proof {
                    assert(out@ =~= pre + line@.take(j + 1));
                }
                j = j + 1;
            }
            proof {
                assert(out@ =~= pre + line@);
                assert(out@ =~= store_header() + store_save_lines(stores@.take(i + 1)));
            }
        } else {
            proof {
                assert(store_save_lines(stores@.take(i + 1))
                    =~= store_save_lines(stores@.take(i as int)));
            }
        }
        i = i + 1;
    }
    proof {
        assert(stores@.take(stores@.len() as int) =~= stores@);
    }
    out
}

} // verus!

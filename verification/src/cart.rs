//! The shopping cart: one pending purchase line per product id, with the
//! persisted-text load and save of the whole collection.

use vstd::prelude::*;
use vstd::pervasive::VecAdditionalExecFns;
use crate::codec::{
    Diag, ParseError, RawV, NEWLINE, copy_bytes, diag_views, format_line, load_diags,
    load_raw_find, parse_raw, spec_format_line, spec_parse_line, spec_split, split_bytes,
    views_of,
};
use crate::keyed::{Keyed, find_by_key, lemma_find_insert, lemma_find_update, sorted_by_key};

verus! {

/// One cart line: a purchase of `quantity` units of the catalog item with
/// this `id`, at a pre-computed total price `outcome`.
#[derive(Debug)]
pub struct Cart {
    pub id: i64,
    pub name: Vec<u8>,
    pub quantity: i64,
    pub outcome: i64,
}

/// The view of a cart line.
pub struct CartV {
    pub id: int,
    pub name: Seq<u8>,
    pub quantity: int,
    pub outcome: int,
}

impl View for Cart {
    type V = CartV;

    open spec fn view(&self) -> CartV {
        CartV {
            id: self.id as int,
            name: self.name@,
            quantity: self.quantity as int,
            outcome: self.outcome as int,
        }
    }
}

impl Keyed for CartV {
    open spec fn key(&self) -> int {
        self.id
    }
}

/// The cart line carried by a parsed record.
pub open spec fn cart_of_raw(r: RawV) -> CartV {
    CartV { id: r.id, name: r.name, quantity: r.quantity, outcome: r.value }
}

/// The record carried by a cart line.
pub open spec fn raw_of_cart(c: CartV) -> RawV {
    RawV { id: c.id, name: c.name, quantity: c.quantity, value: c.outcome }
}

pub open spec fn opt_cart(r: Option<RawV>) -> Option<CartV> {
    match r {
        Some(v) => Some(cart_of_raw(v)),
        None => None,
    }
}

/// The cart collection: at most one line per product id, kept in ascending
/// id order.
pub struct Carts {
    lines: Vec<Cart>,
}

impl View for Carts {
    type V = Seq<CartV>;

    closed spec fn view(&self) -> Seq<CartV> {
        Seq::new(self.lines@.len(), |i: int| self.lines@[i]@)
    }
}

impl Carts {
    /// Lines stand in strictly ascending id order, so ids are unique.
    pub open spec fn wf(&self) -> bool {
        sorted_by_key(self@)
    }

    /// An empty cart.
    pub fn new() -> (r: Self)
        ensures
            r@ == Seq::<CartV>::empty(),
            r.wf(),
    {
        let r = Carts { lines: Vec::new() };
        proof {
            assert(r@ =~= Seq::<CartV>::empty());
        }
        r
    }

    pub fn len(&self) -> (r: usize)
        ensures
            r == self@.len(),
    {
        self.lines.len()
    }

    pub fn get(&self, i: usize) -> (r: &Cart)
        requires
            i < self@.len(),
        ensures
            r@ == self@[i as int],
    {
        &self.lines[i]
    }

    /// Upserts a line by id: the cart then holds `cart` under its id, and
    /// every other id is untouched (last write wins).
    pub fn addCart(&mut self, cart: Cart)
        requires
            old(self).wf(),
        ensures
            final(self).wf(),
            find_by_key(final(self)@, cart@.id) == Some(cart@),
            forall|k: int| k != cart@.id
                ==> find_by_key(final(self)@, k) == find_by_key(old(self)@, k),
    {
        let mut i: usize = 0;
        while i < self.lines.len() && self.lines[i].id < cart.id
            invariant
                0 <= i <= self@.len(),
                forall|j: int| 0 <= j < i ==> #[trigger] self@[j].id < cart@.id,
            decreases self@.len() - i,
        {
            proof {
                assert(self@[i as int].id == self.lines@[i as int]@.id);
            }
            i = i + 1;
        }
        let ghost old_view = self@;
        if i < self.lines.len() && self.lines[i].id == cart.id {
            self.lines.set(i, cart);
            proof {
                assert(self@ =~= old_view.update(i as int, cart@));
                lemma_find_update(old_view, i as int, cart@);
            }
        } else {
            self.lines.insert(i, cart);
            proof {
                assert(self@ =~= old_view.insert(i as int, cart@));
                if i < old_view.len() {
                    assert(old_view[i as int].id != cart@.id && !(old_view[i as int].id < cart@.id));
                }
                lemma_find_insert(old_view, i as int, cart@);
            }
        }
    }

    /// The next free id: one past the highest id in the cart, or 1 for an
    /// empty cart.
    pub fn next_Id(&self) -> (r: i64)
        requires
            self.wf(),
            self@.len() > 0 ==> self@.last().id < i64::MAX,
        ensures
            self@.len() == 0 ==> r == 1,
            self@.len() > 0 ==> r == self@.last().id + 1,
            forall|i: int| 0 <= i < self@.len() ==> #[trigger] self@[i].id < r,
    {
        if self.lines.len() == 0 {
            1
        } else {
            let last = self.lines.len() - 1;
            proof {
                assert(self@[last as int].id == self.lines@[last as int]@.id);
                assert forall|i: int| 0 <= i < self@.len() implies
                    #[trigger] self@[i].id <= self@[last as int].id by {
                    if i < last {
                        assert(self@[i].key() < self@[last as int].key());
                    }
                }
            }
            self.lines[last].id + 1
        }
    }

    /// Hands the lines out in ascending id order.
    pub fn into_vec(self) -> (r: Vec<Cart>)
        ensures
            r@.len() == self@.len(),
            forall|i: int| 0 <= i < r@.len() ==> #[trigger] r@[i]@ == self@[i],
            self.wf() ==> forall|i: int, j: int| 0 <= i < j < r@.len()
                ==> #[trigger] r@[i]@.id < #[trigger] r@[j]@.id,
    {
        proof {
            if self.wf() {
                assert forall|i: int, j: int| 0 <= i < j < self.lines@.len()
                    implies #[trigger] self.lines@[i]@.id < #[trigger] self.lines@[j]@.id by {
                    assert(self@[i] == self.lines@[i]@);
                    assert(self@[j] == self.lines@[j]@);
                    assert(self@[i].key() < self@[j].key());
                }
            }
        }
        self.lines
    }
}

/// Parses one cart line, as `spec_parse_line` describes.
pub fn parseCart(cart: &[u8]) -> (r: Result<Cart, ParseError>)
    ensures
        match r {
            Ok(c) => spec_parse_line(cart@) == Ok::<RawV, ParseError>(raw_of_cart(c@)),
            Err(e) => spec_parse_line(cart@) == Err::<RawV, ParseError>(e),
        },
{
    match parse_raw(cart) {
        Ok((id, name, quantity, outcome)) => Ok(Cart { id, name, quantity, outcome }),
        Err(e) => Err(e),
    }
}

/// Loads a whole cart from persisted text: lines split on newlines, empty
/// lines skipped, unparsable lines dropped (reported when `verbose`), and
/// later lines overwriting earlier ones of the same id.
pub fn parseCarts(text: &[u8], verbose: bool) -> (r: (Carts, Vec<Diag>))
    ensures
        r.0.wf(),
        forall|k: int| #[trigger] find_by_key(r.0@, k)
            == opt_cart(load_raw_find(spec_split(text@, NEWLINE), k)),
        verbose ==> diag_views(r.1@) == load_diags(spec_split(text@, NEWLINE)),
        !verbose ==> r.1@.len() == 0,
{
    let lines = split_bytes(text, NEWLINE);
    let ghost lv = spec_split(text@, NEWLINE);
    proof {
        assert(lines@.len() == lv.len());
        assert forall|j: int| 0 <= j < lines@.len() implies #[trigger] lines@[j]@ == lv[j] by {
            assert(views_of(lines@)[j] == lines@[j]@);
        }
    }
    let mut crts = Carts::new();
    let mut diags: Vec<Diag> = Vec::new();
    let mut i: usize = 0;
    proof {
        assert(lv.take(0) =~= Seq::<Seq<u8>>::empty());
        assert forall|k: int| #[trigger] find_by_key(crts@, k) == opt_cart(load_raw_find(lv.take(0), k)) by {
        }
        assert(diag_views(diags@) =~= load_diags(lv.take(0)));
    }
    while i < lines.len()
        invariant
            0 <= i <= lines@.len(),
            lines@.len() == lv.len(),
            forall|j: int| 0 <= j < lines@.len() ==> #[trigger] lines@[j]@ == lv[j],
            crts.wf(),
            forall|k: int| #[trigger] find_by_key(crts@, k) == opt_cart(load_raw_find(lv.take(i as int), k)),
            verbose ==> diag_views(diags@) == load_diags(lv.take(i as int)),
            !verbose ==> diags@.len() == 0,
        decreases lines@.len() - i,
    {
        proof {
            assert(lv.take(i + 1).drop_last() =~= lv.take(i as int));
            assert(lv.take(i + 1).last() == lv[i as int]);
        }
        let line = &lines[i];
        if line.len() > 0 {
            match parse_raw(line.as_slice()) {
                Ok((id, name, quantity, outcome)) => {
                    let c = Cart { id, name, quantity, outcome };
                    proof {
                        assert(cart_of_raw(spec_parse_line(lv[i as int])->Ok_0) == c@);
                    }
                    crts.addCart(c);
                    proof {
                        assert forall|k: int| #[trigger] find_by_key(crts@, k)
                            == opt_cart(load_raw_find(lv.take(i + 1), k)) by {
                        }
                        if verbose {
                            assert(load_diags(lv.take(i + 1)) =~= load_diags(lv.take(i as int)));
                        }
                    }
                },
                Err(e) => {
                    if verbose {
                        let ghost old_diags = diags@;
                        diags.push(Diag { line: i + 1, error: e, text: copy_bytes(line.as_slice()) });
                        proof {
                            assert(diag_views(diags@) =~= load_diags(lv.take(i + 1)));
                        }
                    }
                    proof {
                        assert forall|k: int| #[trigger] find_by_key(crts@, k)
                            == opt_cart(load_raw_find(lv.take(i + 1), k)) by {
                        }
                    }
                },
            }
        } else {
            proof {
                assert(lv[i as int].len() == 0);
                assert forall|k: int| #[trigger] find_by_key(crts@, k)
                    == opt_cart(load_raw_find(lv.take(i + 1), k)) by {
                }
                if verbose {
                    assert(load_diags(lv.take(i + 1)) =~= load_diags(lv.take(i as int)));
                }
            }
        }
        i = i + 1;
    }
    proof {
        assert(lv.take(lv.len() as int) =~= lv);
    }
    (crts, diags)
}

/// The persisted header of the cart file: `id,name,stock,outcome` and a
/// newline.
pub open spec fn cart_header() -> Seq<u8> {
    seq![105u8, 100, 44, 110, 97, 109, 101, 44, 115, 116, 111, 99, 107, 44, 111, 117, 116, 99, 111, 109, 101, 10]
}

/// The record lines of a saved cart, in collection order, lines of quantity
/// zero omitted.
pub open spec fn cart_save_lines(s: Seq<CartV>) -> Seq<u8>
    decreases s.len(),
{
    if s.len() == 0 {
        Seq::empty()
    } else {
        cart_save_lines(s.drop_last()) + (if s.last().quantity == 0 {
            Seq::<u8>::empty()
        } else {
            spec_format_line(raw_of_cart(s.last()))
        })
    }
}

/// Round trip: parsing a formatted cart line gives back the cart line, for
/// every line a record can carry faithfully.
pub proof fn lemma_cart_round_trip(c: CartV)
    requires
        crate::codec::valid_record(raw_of_cart(c)),
    ensures
        spec_parse_line(spec_format_line(raw_of_cart(c))) == Ok::<RawV, ParseError>(raw_of_cart(c)),
        cart_of_raw(raw_of_cart(c)) == c,
{
    crate::codec::lemma_parse_format(raw_of_cart(c));
}

/// The cart without its zero-quantity lines.
pub open spec fn nonzero_carts(s: Seq<CartV>) -> Seq<CartV>
    decreases s.len(),
{
    if s.len() == 0 {
        s
    } else if s.last().quantity != 0 {
        nonzero_carts(s.drop_last()).push(s.last())
    } else {
        nonzero_carts(s.drop_last())
    }
}

/// A record of quantity zero never reaches the saved output: the saved
/// lines are those of the collection with its zero-quantity records
/// removed.
pub proof fn lemma_save_omits_zero(s: Seq<CartV>)
    ensures
        cart_save_lines(s) == cart_save_lines(nonzero_carts(s)),
    decreases s.len(),
{
    if s.len() > 0 {
        lemma_save_omits_zero(s.drop_last());
        let f = nonzero_carts(s);
        let fd = nonzero_carts(s.drop_last());
        if s.last().quantity != 0 {
            assert(f == fd.push(s.last()));
            assert(f.drop_last() =~= fd);
            assert(f.last() == s.last());
        } else {
            assert(f == fd);
            assert(cart_save_lines(s) =~= cart_save_lines(s.drop_last()));
        }
    }
}

/// Saving a cart twice without mutation yields identical persisted text:
/// the text is a function of the collection's contents alone.
pub proof fn lemma_save_idempotent(v: Seq<CartV>, t1: Seq<u8>, t2: Seq<u8>)
    requires
        t1 == cart_header() + cart_save_lines(v),
        t2 == cart_header() + cart_save_lines(v),
    ensures
        t1 == t2,
{
}

/// The whole persisted text of a cart: header, then one line per record in
/// ascending id order, records of quantity zero omitted.
pub fn saveCart(carts: &Carts) -> (out: Vec<u8>)
    requires
        carts.wf(),
    ensures
        out@ == cart_header() + cart_save_lines(carts@),
{
    let mut out: Vec<u8> = Vec::new();
    let header: [u8; 22] = [
        105, 100, 44, 110, 97, 109, 101, 44, 115, 116, 111, 99, 107, 44, 111, 117, 116, 99, 111,
        109, 101, 10,
    ];
    let mut h: usize = 0;
    while h < 22
        invariant
            0 <= h <= 22,
            header@ =~= cart_header(),
            out@ =~= cart_header().take(h as int),
        decreases 22 - h,
    {
        out.push(header[h]);
        proof {
            assert(out@ =~= cart_header().take(h + 1));
        }
        h = h + 1;
    }
    proof {
        assert(out@ =~= cart_header());
        assert(cart_save_lines(carts@.take(0)) =~= Seq::<u8>::empty());
        assert(out@ =~= cart_header() + cart_save_lines(carts@.take(0)));
    }
    let mut i: usize = 0;
    let n = carts.len();
    while i < n
        invariant
            0 <= i <= n == carts@.len(),
            carts.wf(),
            out@ == cart_header() + cart_save_lines(carts@.take(i as int)),
        decreases n - i,
    {
        proof {
            assert(carts@.take(i + 1).drop_last() =~= carts@.take(i as int));
            assert(carts@.take(i + 1).last() == carts@[i as int]);
        }
        let c = carts.get(i);
        if c.quantity != 0 {
            let mut line = format_line(c.id, c.name.as_slice(), c.quantity, c.outcome);
            let mut j: usize = 0;
            let m = line.len();
            let ghost pre = out@;
            while j < m
                invariant
                    0 <= j <= m == line@.len(),
                    out@ =~= pre + line@.take(j as int),
                decreases m - j,
            {
                out.push(line[j]);
                proof {
                    assert(out@ =~= pre + line@.take(j + 1));
                }
                j = j + 1;
            }
            proof {
                assert(out@ =~= pre + line@);
                assert(out@ =~= cart_header() + cart_save_lines(carts@.take(i + 1)));
            }
        } else {
            proof {
                assert(cart_save_lines(carts@.take(i + 1)) =~= cart_save_lines(carts@.take(i as int)));
            }
        }
        i = i + 1;
    }
    proof {
        assert(carts@.take(carts@.len() as int) =~= carts@);
    }
    out
}

} // verus!

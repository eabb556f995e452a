//! Adding to the cart, and checkout: applying every cart line against the
//! catalog, totalling the payment, and producing the new catalog state.

use vstd::prelude::*;
use crate::cart::{Cart, CartV, Carts};
use crate::codec::copy_bytes;
use crate::keyed::{find_by_key, lemma_find_key};
use crate::store::{Store, StoreV, Stores};

verus! {

/// Whether a cart line goes through against this catalog: its id is present
/// and the stock covers the requested quantity.
pub open spec fn line_applies(sv: Seq<StoreV>, c: CartV) -> bool {
    match find_by_key(sv, c.id) {
        Some(st) => st.quantity >= c.quantity,
        None => false,
    }
}

/// The catalog item with the cart line's quantity deducted.
pub open spec fn deducted(st: StoreV, c: CartV) -> StoreV {
    StoreV { id: st.id, name: st.name, quantity: st.quantity - c.quantity, price: st.price }
}

/// The catalog record under key `k` after checkout: every cart line is
/// validated against the pre-checkout catalog `sv`, and an applying line
/// replaces the item by its deducted form; other keys keep their old record.
pub open spec fn checkout_entry(sv: Seq<StoreV>, cv: Seq<CartV>, k: int) -> Option<StoreV>
    decreases cv.len(),
{
    if cv.len() == 0 {
        find_by_key(sv, k)
    } else {
        let c = cv.last();
        if c.id == k && line_applies(sv, c) {
            match find_by_key(sv, k) {
                Some(st) => Some(deducted(st, c)),
                None => None,
            }
        } else {
            checkout_entry(sv, cv.drop_last(), k)
        }
    }
}

/// The grand total of a checkout: the pre-computed outcome of every cart
/// line that applies, in order; skipped lines contribute nothing.
pub open spec fn checkout_total(sv: Seq<StoreV>, cv: Seq<CartV>) -> int
    decreases cv.len(),
{
    if cv.len() == 0 {
        0
    } else {
        checkout_total(sv, cv.drop_last()) + if line_applies(sv, cv.last()) {
            cv.last().outcome
        } else {
            0
        }
    }
}

/// Every intermediate total and every deducted quantity of the checkout
/// stays within the `i64` range.
pub open spec fn checkout_ok(sv: Seq<StoreV>, cv: Seq<CartV>) -> bool
    decreases cv.len(),
{
    if cv.len() == 0 {
        true
    } else {
        &&& checkout_ok(sv, cv.drop_last())
        &&& i64::MIN <= checkout_total(sv, cv) <= i64::MAX
        &&& (line_applies(sv, cv.last()) ==> (match find_by_key(sv, cv.last().id) {
            Some(st) => st.quantity - cv.last().quantity <= i64::MAX,
            None => true,
        }))
    }
}

pub proof fn lemma_checkout_ok_prefix(sv: Seq<StoreV>, cv: Seq<CartV>, n: int)
    requires
        checkout_ok(sv, cv),
        0 <= n <= cv.len(),
    ensures
        checkout_ok(sv, cv.take(n)),
    decreases cv.len(),
{
    if n == cv.len() {
        assert(cv.take(n) =~= cv);
    } else if cv.len() > 0 {
        assert(cv.take(n) =~= cv.drop_last().take(n));
        lemma_checkout_ok_prefix(sv, cv.drop_last(), n);
    }
}

/// A cart line whose id is absent from the catalog is skipped entirely:
/// the grand total is that of the cart without the line, and every catalog
/// entry comes out as it would without the line.
pub proof fn lemma_checkout_skips_absent(sv: Seq<StoreV>, cv: Seq<CartV>, i: int)
    requires
        0 <= i < cv.len(),
        find_by_key(sv, cv[i].id) is None,
    ensures
        checkout_total(sv, cv) == checkout_total(sv, cv.remove(i)),
        forall|k: int| #[trigger] checkout_entry(sv, cv, k) == checkout_entry(sv, cv.remove(i), k),
    decreases cv.len(),
{
    assert(!line_applies(sv, cv[i]));
    if i == cv.len() - 1 {
        assert(cv.remove(i) =~= cv.drop_last());
        assert(cv.last() == cv[i]);
        assert forall|k: int| #[trigger] checkout_entry(sv, cv, k)
            == checkout_entry(sv, cv.remove(i), k) by {
            assert(checkout_entry(sv, cv, k) == checkout_entry(sv, cv.drop_last(), k));
        }
    } else {
        lemma_checkout_skips_absent(sv, cv.drop_last(), i);
        assert(cv.remove(i).drop_last() =~= cv.drop_last().remove(i));
        assert(cv.remove(i).last() == cv.last());
        assert(cv.remove(i).len() > 0);
        assert forall|k: int| #[trigger] checkout_entry(sv, cv, k)
            == checkout_entry(sv, cv.remove(i), k) by {
            if cv.last().id == k && line_applies(sv, cv.last()) {
            } else {
                assert(checkout_entry(sv, cv, k) == checkout_entry(sv, cv.drop_last(), k));
                assert(checkout_entry(sv, cv.remove(i), k)
                    == checkout_entry(sv, cv.remove(i).drop_last(), k));
            }
        }
        assert(checkout_total(sv, cv) == checkout_total(sv, cv.drop_last())
            + if line_applies(sv, cv.last()) { cv.last().outcome } else { 0 });
        assert(checkout_total(sv, cv.remove(i)) == checkout_total(sv, cv.remove(i).drop_last())
            + if line_applies(sv, cv.remove(i).last()) { cv.remove(i).last().outcome } else { 0 });
    }
}

/// Whether a checkout of this cart against this catalog stays within the
/// `i64` range throughout, as `checkout_ok` describes: a dry run making no
/// change.
pub fn checkout_fits(stores: &Stores, carts: &Carts) -> (r: bool)
    requires
        stores.wf(),
        carts.wf(),
    ensures
        r == checkout_ok(stores@, carts@),
{
    let mut total: i128 = 0;
    let mut i: usize = 0;
    let n = carts.len();
    proof {
        assert(carts@.take(0) =~= Seq::<CartV>::empty());
    }
    while i < n
        invariant
            0 <= i <= n == carts@.len(),
            stores.wf(),
            carts.wf(),
            checkout_ok(stores@, carts@.take(i as int)),
            total == checkout_total(stores@, carts@.take(i as int)),
            i64::MIN <= total <= i64::MAX,
        decreases n - i,
    {
        proof {
            assert(carts@.take(i + 1).drop_last() =~= carts@.take(i as int));
            assert(carts@.take(i + 1).last() == carts@[i as int]);
        }
        let line = carts.get(i);
        match stores.availability(line.id) {
            Some(st) => {
                if st.quantity >= line.quantity {
                    if (st.quantity as i128) - (line.quantity as i128) > i64::MAX as i128 {
                        proof {
                            assert(!checkout_ok(stores@, carts@.take(i + 1)));
                            if checkout_ok(stores@, carts@) {
                                lemma_checkout_ok_prefix(stores@, carts@, i + 1);
                            }
                        }
                        return false;
                    }
                    total = total + (line.outcome as i128);
                    if total > i64::MAX as i128 || total < i64::MIN as i128 {
                        proof {
                            assert(!checkout_ok(stores@, carts@.take(i + 1)));
                            if checkout_ok(stores@, carts@) {
                                lemma_checkout_ok_prefix(stores@, carts@, i + 1);
                            }
                        }
                        return false;
                    }
                }
            },
            None => {
            },
        }
        i = i + 1;
    }
    proof {
        assert(carts@.take(carts@.len() as int) =~= carts@);
    }
    true
}

/// Checkout: applies every cart line, in ascending id order, against the
/// pre-checkout catalog, and hands back the new catalog and the grand
/// total.  Lines whose id is absent or whose quantity exceeds the stock are
/// skipped.  Neither input is touched; the caller persists the new catalog
/// and clears the cart.
pub fn checkout(stores: &Stores, carts: &Carts) -> (r: (Stores, i64))
    requires
        stores.wf(),
        carts.wf(),
        checkout_ok(stores@, carts@),
    ensures
        r.0.wf(),
        forall|k: int| #[trigger] find_by_key(r.0@, k) == checkout_entry(stores@, carts@, k),
        r.1 == checkout_total(stores@, carts@),
{
    let mut new_stores = stores.duplicate();
    let mut total: i64 = 0;
    let mut i: usize = 0;
    let n = carts.len();
    proof {
        assert(carts@.take(0) =~= Seq::<CartV>::empty());
    }
    while i < n
        invariant
            0 <= i <= n == carts@.len(),
            stores.wf(),
            carts.wf(),
            checkout_ok(stores@, carts@),
            new_stores.wf(),
            forall|k: int| #[trigger] find_by_key(new_stores@, k)
                == checkout_entry(stores@, carts@.take(i as int), k),
            total == checkout_total(stores@, carts@.take(i as int)),
        decreases n - i,
    {
        proof {
            assert(carts@.take(i + 1).drop_last() =~= carts@.take(i as int));
            assert(carts@.take(i + 1).last() == carts@[i as int]);
            lemma_checkout_ok_prefix(stores@, carts@, i + 1);
        }
        let line = carts.get(i);
        match stores.availability(line.id) {
            Some(st) => {
                if st.quantity >= line.quantity {
                    proof {
                        lemma_find_key(stores@, line@.id);
                        assert(line_applies(stores@, carts@[i as int]));
                    }
                    let replacement = Store {
                        id: st.id,
                        name: copy_bytes(st.name.as_slice()),
                        quantity: st.quantity - line.quantity,
                        price: st.price,
                    };
                    proof {
                        assert(replacement@ == deducted(st@, line@));
                    }
                    total = total + line.outcome;
                    new_stores.addItem(replacement);
                    proof {
                        assert forall|k: int| #[trigger] find_by_key(new_stores@, k)
                            == checkout_entry(stores@, carts@.take(i + 1), k) by {
                        }
                    }
                } else {
                    proof {
                        assert(!line_applies(stores@, carts@[i as int]));
                        assert forall|k: int| #[trigger] find_by_key(new_stores@, k)
                            == checkout_entry(stores@, carts@.take(i + 1), k) by {
                        }
                    }
                }
            },
            None => {
                proof {
                    assert(!line_applies(stores@, carts@[i as int]));
                    assert forall|k: int| #[trigger] find_by_key(new_stores@, k)
                        == checkout_entry(stores@, carts@.take(i + 1), k) by {
                    }
                }
            },
        }
        i = i + 1;
    }
    proof {
        assert(carts@.take(carts@.len() as int) =~= carts@);
    }
    (new_stores, total)
}

/// Adds a line to the cart: when the id is in the catalog with sufficient
/// stock, a line with the pre-computed total `outcome` is upserted under
/// the product id and that total handed back; otherwise the cart is left
/// untouched and nothing is reported.
pub fn add_to_cart(stores: &Stores, carts: &mut Carts, id: i64, quantity: i64) -> (r: Option<i64>)
    requires
        stores.wf(),
        old(carts).wf(),
        match find_by_key(stores@, id as int) {
            Some(st) => st.quantity >= quantity
                ==> i64::MIN <= st.price * quantity <= i64::MAX,
            None => true,
        },
    ensures
        final(carts).wf(),
        match find_by_key(stores@, id as int) {
            Some(st) => {
                if st.quantity >= quantity {
                    &&& r matches Some(t) && t == st.price * quantity
                    &&& find_by_key(final(carts)@, id as int) == Some(CartV {
                        id: id as int,
                        name: st.name,
                        quantity: quantity as int,
                        outcome: st.price * quantity,
                    })
                    &&& forall|k: int| k != id as int
                        ==> find_by_key(final(carts)@, k) == find_by_key(old(carts)@, k)
                } else {
                    r is None && final(carts)@ == old(carts)@
                }
            },
            None => r is None && final(carts)@ == old(carts)@,
        },
{
    match stores.availability(id) {
        Some(st) => {
            if st.quantity >= quantity {
                proof {
                    lemma_find_key(stores@, id as int);
                }
                let outcome = st.price * quantity;
                let c = Cart {
                    id: st.id,
                    name: copy_bytes(st.name.as_slice()),
                    quantity,
                    outcome,
                };
                carts.addCart(c);
                Some(outcome)
            } else {
                None
            }
        },
        None => None,
    }
}

} // verus!

//! Mappings from addresses to values, held as sequences of entries with one
//! entry per address: either in the order in which addresses were first
//! inserted, or sorted by address.
use vstd::prelude::*;
use crate::address::Address;
use crate::cycle_info::{AddressView, entries_view, unique_keys, well_formed_keys};

verus! {

/// Whether some entry of `s` has address `k`.
pub open spec fn has_key<V>(s: Seq<(AddressView, V)>, k: AddressView) -> bool {
    exists|i: int| 0 <= i < s.len() && s[i].0 == k
}

/// `s` with the value of `e.0` set to `e.1`: the entry of that address is
/// replaced in place, or a new entry is added at the end.
pub open spec fn map_insert<V>(s: Seq<(AddressView, V)>, e: (AddressView, V)) -> Seq<(AddressView, V)> {
    if has_key(s, e.0) {
        let i = choose|i: int| 0 <= i < s.len() && s[i].0 == e.0;
        s.update(i, e)
    } else {
        s.push(e)
    }
}

/// The mapping obtained by inserting the entries of `l` in order, a later
/// entry for an address overriding an earlier one.
pub open spec fn from_entries<V>(l: Seq<(AddressView, V)>) -> Seq<(AddressView, V)>
    decreases l.len(),
{
    if l.len() == 0 {
        Seq::empty()
    } else {
        map_insert(from_entries(l.drop_last()), l.last())
    }
}

/// Inserting keeps one entry per address.
pub proof fn lemma_map_insert_unique<V>(s: Seq<(AddressView, V)>, e: (AddressView, V))
    requires
        unique_keys(s),
    ensures
        unique_keys(map_insert(s, e)),
{
}

/// Building a mapping from entries keeps one entry per address.
pub proof fn lemma_from_entries_unique<V>(l: Seq<(AddressView, V)>)
    ensures
        unique_keys(from_entries(l)),
    decreases l.len(),
{
    if l.len() > 0 {
        lemma_from_entries_unique(l.drop_last());
        lemma_map_insert_unique(from_entries(l.drop_last()), l.last());
    }
}

/// Entries with one entry per address form a mapping of themselves.
pub proof fn lemma_from_unique_entries<V>(l: Seq<(AddressView, V)>)
    requires
        unique_keys(l),
    ensures
        from_entries(l) == l,
    decreases l.len(),
{
    if l.len() > 0 {
        let d = l.drop_last();
        assert(unique_keys(d));
        lemma_from_unique_entries(d);
        assert(!has_key(d, l.last().0));
        assert(d.push(l.last()) =~= l);
    }
}

/// Sets the value of `address` in `entries` to `value`.
pub fn insert_entry<V: Copy>(entries: &mut Vec<(Address, V)>, address: Address, value: V)
    requires
        unique_keys(entries_view(old(entries)@)),
    ensures
        entries_view(final(entries)@) == map_insert(entries_view(old(entries)@), (address@, value)),
{
    let ghost ev = entries_view(entries@);
    let mut i: usize = 0;
    while i < entries.len()
        invariant
            0 <= i <= entries@.len(),
            ev == entries_view(entries@),
            ev == entries_view(old(entries)@),
            unique_keys(ev),
            forall|j: int| 0 <= j < i ==> ev[j].0 != address@,
        decreases entries@.len() - i,
    {
        if entries[i].0.same_as(&address) {
            proof {
                assert(ev[i as int].0 == address@);
                assert(has_key(ev, address@));
                let e = (address@, value);
                let k = choose|k: int| 0 <= k < ev.len() && ev[k].0 == e.0;
                assert(k == i);
                assert(map_insert(ev, e) == ev.update(i as int, e));
            }
            entries[i] = (address, value);
            assert(entries_view(entries@) =~= ev.update(i as int, (address@, value)));
            return;
        }
        i = i + 1;
    }
    entries.push((address, value));
    assert(entries_view(entries@) =~= ev.push((address@, value)));
}

/// Lexicographic order on byte strings.
pub open spec fn bytes_lt(x: Seq<u8>, y: Seq<u8>) -> bool
    decreases x.len(),
{
    if x.len() == 0 || y.len() == 0 {
        false
    } else if x[0] != y[0] {
        x[0] < y[0]
    } else {
        bytes_lt(x.drop_first(), y.drop_first())
    }
}

/// Order on addresses: user addresses first, then by hash bytes.
pub open spec fn addr_lt(a: AddressView, b: AddressView) -> bool {
    (!a.0 && b.0) || (a.0 == b.0 && bytes_lt(a.1, b.1))
}

/// Whether the addresses of `s` are strictly increasing.
pub open spec fn sorted_keys<V>(s: Seq<(AddressView, V)>) -> bool {
    forall|i: int, j: int| 0 <= i < j < s.len() ==> addr_lt(s[i].0, s[j].0)
}

proof fn lemma_bytes_lt_irreflexive(x: Seq<u8>)
    ensures
        !bytes_lt(x, x),
    decreases x.len(),
{
    if x.len() > 0 {
        lemma_bytes_lt_irreflexive(x.drop_first());
    }
}

proof fn lemma_bytes_lt_transitive(x: Seq<u8>, y: Seq<u8>, z: Seq<u8>)
    requires
        bytes_lt(x, y),
        bytes_lt(y, z),
    ensures
        bytes_lt(x, z),
    decreases x.len(),
{
    if x[0] == y[0] && y[0] == z[0] {
        lemma_bytes_lt_transitive(x.drop_first(), y.drop_first(), z.drop_first());
    }
}

proof fn lemma_bytes_lt_total(x: Seq<u8>, y: Seq<u8>)
    requires
        x.len() == y.len(),
        x != y,
    ensures
        bytes_lt(x, y) || bytes_lt(y, x),
    decreases x.len(),
{
    if x.len() == 0 {
        assert(x =~= y);
    } else if x[0] == y[0] {
        if x.drop_first() == y.drop_first() {
            assert forall|i: int| 0 <= i < x.len() implies x[i] == y[i] by {
                if i > 0 {
                    assert(x[i] == x.drop_first()[i - 1]);
                    assert(y[i] == y.drop_first()[i - 1]);
                }
            }
            assert(x =~= y);
        }
        lemma_bytes_lt_total(x.drop_first(), y.drop_first());
    }
}

/// The order on addresses is a strict total order on addresses with
/// 32-byte hashes.
pub proof fn lemma_addr_lt_order(a: AddressView, b: AddressView, c: AddressView)
    ensures
        !addr_lt(a, a),
        addr_lt(a, b) && addr_lt(b, c) ==> addr_lt(a, c),
        a.1.len() == b.1.len() && a != b ==> addr_lt(a, b) || addr_lt(b, a),
{
    lemma_bytes_lt_irreflexive(a.1);
    if addr_lt(a, b) && addr_lt(b, c) && a.0 == b.0 && b.0 == c.0 {
        lemma_bytes_lt_transitive(a.1, b.1, c.1);
    }
    if a.1.len() == b.1.len() && a != b && a.0 == b.0 {
        lemma_bytes_lt_total(a.1, b.1);
    }
}

/// Whether `i` is where an entry for `k` goes in sorted `s`.
pub open spec fn is_insert_pos<V>(s: Seq<(AddressView, V)>, k: AddressView, i: int) -> bool {
    &&& 0 <= i <= s.len()
    &&& forall|j: int| 0 <= j < i ==> addr_lt(#[trigger] s[j].0, k)
    &&& forall|j: int| i <= j < s.len() ==> addr_lt(k, #[trigger] s[j].0)
}

/// Sorted `s` with the value of `e.0` set to `e.1`: the entry of that address
/// is replaced in place, or a new entry is added where the order puts it.
pub open spec fn sorted_insert<V>(s: Seq<(AddressView, V)>, e: (AddressView, V)) -> Seq<(AddressView, V)> {
    if has_key(s, e.0) {
        let i = choose|i: int| 0 <= i < s.len() && s[i].0 == e.0;
        s.update(i, e)
    } else {
        let i = choose|i: int| is_insert_pos(s, e.0, i);
        s.insert(i, e)
    }
}

/// The sorted mapping obtained by inserting the entries of `l` in order, a
/// later entry for an address overriding an earlier one.
pub open spec fn from_sorted_entries<V>(l: Seq<(AddressView, V)>) -> Seq<(AddressView, V)>
    decreases l.len(),
{
    if l.len() == 0 {
        Seq::empty()
    } else {
        sorted_insert(from_sorted_entries(l.drop_last()), l.last())
    }
}

/// Sorted entries have one entry per address.
pub proof fn lemma_sorted_unique<V>(s: Seq<(AddressView, V)>)
    requires
        sorted_keys(s),
    ensures
        unique_keys(s),
{
    assert forall|i: int, j: int| 0 <= i < j < s.len() implies s[i].0 != s[j].0 by {
        lemma_addr_lt_order(s[i].0, s[j].0, s[j].0);
    }
}

proof fn lemma_insert_pos_unique<V>(s: Seq<(AddressView, V)>, k: AddressView, i: int, j: int)
    requires
        is_insert_pos(s, k, i),
        is_insert_pos(s, k, j),
    ensures
        i == j,
{
    if i < j {
        lemma_addr_lt_order(k, s[i].0, k);
    } else if j < i {
        lemma_addr_lt_order(k, s[j].0, k);
    }
}

/// Inserting into sorted entries with 32-byte hashes keeps them sorted.
pub proof fn lemma_sorted_insert_sorted<V>(s: Seq<(AddressView, V)>, e: (AddressView, V))
    requires
        sorted_keys(s),
        well_formed_keys(s),
        e.0.1.len() == 32,
    ensures
        sorted_keys(sorted_insert(s, e)),
        well_formed_keys(sorted_insert(s, e)),
        has_key(s, e.0) || exists|i: int| is_insert_pos(s, e.0, i),
{
    if !has_key(s, e.0) {
        let k = e.0;
        let n = s.len() as int;
        // the first index whose address is above k
        let i = choose_pos(s, k, 0);
        assert(is_insert_pos(s, k, i));
        let p = choose|p: int| is_insert_pos(s, k, p);
        lemma_insert_pos_unique(s, k, i, p);
        let r = s.insert(i, e);
        assert forall|a: int, b: int| 0 <= a < b < r.len() implies addr_lt(r[a].0, r[b].0) by {
            if a < i && b > i {
                lemma_addr_lt_order(r[a].0, k, r[b].0);
            }
        }
    }
}

proof fn choose_pos<V>(s: Seq<(AddressView, V)>, k: AddressView, i: int) -> (p: int)
    requires
        sorted_keys(s),
        well_formed_keys(s),
        k.1.len() == 32,
        !has_key(s, k),
        0 <= i <= s.len(),
        forall|j: int| 0 <= j < i ==> addr_lt(#[trigger] s[j].0, k),
    ensures
        is_insert_pos(s, k, p),
    decreases s.len() - i,
{
    if i == s.len() {
        i
    } else {
        lemma_addr_lt_order(s[i].0, k, k);
        assert(s[i].0 != k);
        if addr_lt(s[i].0, k) {
            choose_pos(s, k, i + 1)
        } else {
            assert forall|j: int| i <= j < s.len() implies addr_lt(k, #[trigger] s[j].0) by {
                if j > i {
                    lemma_addr_lt_order(k, s[i].0, s[j].0);
                }
            }
            i
        }
    }
}

/// Sorted entries form a sorted mapping of themselves.
pub proof fn lemma_from_sorted_entries_id<V>(l: Seq<(AddressView, V)>)
    requires
        sorted_keys(l),
    ensures
        from_sorted_entries(l) == l,
    decreases l.len(),
{
    if l.len() > 0 {
        let d = l.drop_last();
        let e = l.last();
        lemma_from_sorted_entries_id(d);
        lemma_sorted_unique(l);
        assert(!has_key(d, e.0));
        assert(is_insert_pos(d, e.0, d.len() as int));
        let p = choose|p: int| is_insert_pos(d, e.0, p);
        lemma_insert_pos_unique(d, e.0, d.len() as int, p);
        assert(d.insert(d.len() as int, e) =~= l);
    }
}

/// Building a sorted mapping from entries with 32-byte hashes gives sorted
/// entries.
pub proof fn lemma_from_sorted_entries_sorted<V>(l: Seq<(AddressView, V)>)
    requires
        well_formed_keys(l),
    ensures
        sorted_keys(from_sorted_entries(l)),
        well_formed_keys(from_sorted_entries(l)),
    decreases l.len(),
{
    if l.len() > 0 {
        let d = l.drop_last();
        assert(well_formed_keys(d));
        lemma_from_sorted_entries_sorted(d);
        lemma_sorted_insert_sorted(from_sorted_entries(d), l.last());
    }
}

/// Whether `a` comes before `b` in the order of addresses.
pub fn address_lt(a: &Address, b: &Address) -> (r: bool)
    ensures
        r == addr_lt(a@, b@),
{
    if a.is_sc != b.is_sc {
        return !a.is_sc;
    }
    let ghost x = a.hash@;
    let ghost y = b.hash@;
    let mut i: usize = 0;
    assert(x.subrange(0, 32) =~= x);
    assert(y.subrange(0, 32) =~= y);
    while i < 32
        invariant
            0 <= i <= 32,
            x == a.hash@,
            y == b.hash@,
            a.is_sc == b.is_sc,
            bytes_lt(x, y) == bytes_lt(x.subrange(i as int, 32), y.subrange(i as int, 32)),
        decreases 32 - i,
    {
        assert(x.subrange(i as int, 32)[0] == x[i as int]);
        assert(y.subrange(i as int, 32)[0] == y[i as int]);
        let u = a.hash.bytes[i];
        let v = b.hash.bytes[i];
        assert(u == x[i as int] && v == y[i as int]);
        if u != v {
            assert(bytes_lt(x.subrange(i as int, 32), y.subrange(i as int, 32)) == (u < v));
            return u < v;
        }
        assert(x.subrange(i as int, 32).drop_first() =~= x.subrange(i + 1, 32));
        assert(y.subrange(i as int, 32).drop_first() =~= y.subrange(i + 1, 32));
        i = i + 1;
    }
    false
}

/// Sets the value of `address` in sorted `entries` to `value`, keeping them
/// sorted.
pub fn insert_sorted_entry<V: Copy>(entries: &mut Vec<(Address, V)>, address: Address, value: V)
    requires
        sorted_keys(entries_view(old(entries)@)),
    ensures
        entries_view(final(entries)@) == sorted_insert(entries_view(old(entries)@), (address@, value)),
{
    let ghost ev = entries_view(entries@);
    let ghost k = address@;
    let ghost e = (address@, value);
    let mut i: usize = 0;
    while i < entries.len()
        invariant
            0 <= i <= entries@.len(),
            ev == entries_view(entries@),
            ev == entries_view(old(entries)@),
            sorted_keys(ev),
            k == address@,
            e == (address@, value),
            forall|j: int| 0 <= j < i ==> addr_lt(#[trigger] ev[j].0, k),
        decreases entries@.len() - i,
    {
        if entries[i].0.same_as(&address) {
            proof {
                lemma_sorted_unique(ev);
                assert(ev[i as int].0 == k);
                assert(has_key(ev, k));
                let c = choose|c: int| 0 <= c < ev.len() && ev[c].0 == e.0;
                assert(c == i);
                assert(sorted_insert(ev, e) == ev.update(i as int, e));
            }
            entries[i] = (address, value);
            assert(entries_view(entries@) =~= ev.update(i as int, e));
            return;
        }
        if address_lt(&address, &entries[i].0) {
            proof {
                assert forall|j: int| i <= j < ev.len() implies addr_lt(k, #[trigger] ev[j].0) by {
                    if j > i {
                        lemma_addr_lt_order(k, ev[i as int].0, ev[j].0);
                    }
                }
                assert forall|j: int| 0 <= j < ev.len() implies ev[j].0 != k by {
                    lemma_addr_lt_order(k, k, k);
                }
                assert(!has_key(ev, k));
                assert(is_insert_pos(ev, k, i as int));
                let p = choose|p: int| is_insert_pos(ev, e.0, p);
                lemma_insert_pos_unique(ev, k, i as int, p);
            }
            entries.insert(i, (address, value));
            assert(entries_view(entries@) =~= ev.insert(i as int, e));
            return;
        }
        proof {
            lemma_addr_lt_order(ev[i as int].0, k, k);
        }
        i = i + 1;
    }
    proof {
        assert forall|j: int| 0 <= j < ev.len() implies ev[j].0 != k by {
            lemma_addr_lt_order(k, k, k);
        }
        assert(!has_key(ev, k));
        assert(is_insert_pos(ev, k, ev.len() as int));
        let p = choose|p: int| is_insert_pos(ev, e.0, p);
        lemma_insert_pos_unique(ev, k, ev.len() as int, p);
    }
    entries.push((address, value));
    assert(entries_view(entries@) =~= ev.insert(ev.len() as int, e));
}

/// In sorted entries, removing an entry and inserting it again gives back
/// the same entries.
pub proof fn lemma_sorted_remove_then_insert<V>(s: Seq<(AddressView, V)>, i: int)
    requires
        sorted_keys(s),
        0 <= i < s.len(),
    ensures
        sorted_insert(s.remove(i), s[i]) == s,
{
    let d = s.remove(i);
    let e = s[i];
    lemma_sorted_unique(s);
    assert forall|j: int| 0 <= j < d.len() implies d[j].0 != e.0 by {
        if j < i {
            assert(d[j] == s[j]);
        } else {
            assert(d[j] == s[j + 1]);
        }
    }
    assert(!has_key(d, e.0));
    assert forall|j: int| 0 <= j < i implies addr_lt(#[trigger] d[j].0, e.0) by {
        assert(d[j] == s[j]);
    }
    assert forall|j: int| i <= j < d.len() implies addr_lt(e.0, #[trigger] d[j].0) by {
        assert(d[j] == s[j + 1]);
    }
    assert(is_insert_pos(d, e.0, i));
    let p = choose|p: int| is_insert_pos(d, e.0, p);
    lemma_insert_pos_unique(d, e.0, i, p);
    assert(d.insert(i, e) =~= s);
}

} // verus!

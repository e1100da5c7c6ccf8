pub mod duration;
pub mod error;

pub use self::duration::parse_duration;

use crate::task::TaskId;
use rand::Rng;
use std::collections::hash_map::DefaultHasher;
use std::fmt::Debug;
use std::hash::{Hash, Hasher};
use vstd::prelude::*;
use vstd::string::StringExecFns;
use vstd::std_specs::cmp::PartialEqSpec;
use vstd::std_specs::hash::DefaultHasherAdditionalSpecFns;
use vstd::utf8::encode_utf8;

verus! {

/// Draws a random number with `rand::thread_rng().gen()`. Nothing is stated of the
/// number: it depends on the generator's state.
#[verifier::external_body]
fn random_u64() -> u64 {
    rand::thread_rng().gen()
}

/// `x` is a number that the generator of `random_u64` can give: a draw of
/// `rand::thread_rng().gen()` over all of `u64`.
pub closed spec fn is_random_draw(x: u64) -> bool {
    call_ensures(random_u64, (), x)
}

/// Generates a task identifier at random.
pub fn generate_task_id() -> (id: TaskId)
    ensures
        is_random_draw(id),
{
    random_u64()
}

/// Every task identifier is a number drawn from the random generator over the whole of
/// `u64`, as `random_u64` gives it, and not one picked or reduced by the library.
pub proof fn lemma_task_id_is_a_draw(id: TaskId)
    requires
        call_ensures(generate_task_id, (), id),
    ensures
        is_random_draw(id),
{
}

/// The hash that a fresh `DefaultHasher` gives after it is fed `bytes` and then the
/// byte `0xff`, which is how a string feeds a hasher.
pub open spec fn bytes_hash(bytes: Seq<u8>) -> u64 {
    DefaultHasher::spec_finish(seq![bytes, seq![0xffu8]])
}

/// The hash of a text under `DefaultHasher`.
pub open spec fn text_hash(s: Seq<char>) -> u64 {
    bytes_hash(encode_utf8(s))
}

/// The ASCII decimal digits of `n`, as `Display` writes a number.
pub open spec fn decimal_digits(n: nat) -> Seq<u8>
    decreases n,
{
    if n < 10 {
        seq![(48 + n) as u8]
    } else {
        decimal_digits(n / 10).push((48 + n % 10) as u8)
    }
}

/// The decimal digit character of `d`.
pub open spec fn digit_char(d: nat) -> char {
    ((48 + d) as u8) as char
}

/// The decimal text of `n`, as `Display` writes a number.
pub open spec fn decimal_text(n: nat) -> Seq<char>
    decreases n,
{
    if n < 10 {
        seq![digit_char(n)]
    } else {
        decimal_text(n / 10).push(digit_char(n % 10))
    }
}

/// Writes `n` in decimal.
pub(crate) fn decimal_string(n: u64) -> (s: String)
    ensures
        s@ == decimal_text(n as nat),
    decreases n,
{
    let mut s = if n >= 10 {
        decimal_string(n / 10)
    } else {
        String::new()
    };
    let d = n % 10;
    let digit = if d == 0 {
        proof { reveal_strlit("0"); }
        "0"
    } else if d == 1 {
        proof { reveal_strlit("1"); }
        "1"
    } else if d == 2 {
        proof { reveal_strlit("2"); }
        "2"
    } else if d == 3 {
        proof { reveal_strlit("3"); }
        "3"
    } else if d == 4 {
        proof { reveal_strlit("4"); }
        "4"
    } else if d == 5 {
        proof { reveal_strlit("5"); }
        "5"
    } else if d == 6 {
        proof { reveal_strlit("6"); }
        "6"
    } else if d == 7 {
        proof { reveal_strlit("7"); }
        "7"
    } else if d == 8 {
        proof { reveal_strlit("8"); }
        "8"
    } else {
        proof { reveal_strlit("9"); }
        "9"
    };
    assert(digit@ == seq![digit_char(d as nat)]);
    s.append(digit);
    assert(s@ =~= decimal_text(n as nat));
    s
}

/// The hash of the key of virtual node `i` of a node whose own key hashes to `node_hash`:
/// the two numbers written one after the other.
pub open spec fn virtual_hash(node_hash: u64, i: u32) -> u64 {
    bytes_hash(decimal_digits(node_hash as nat) + decimal_digits(i as nat))
}

/// The virtual nodes of node `j`, whose key hashes to `node_hash`.
pub open spec fn node_ring(node_hash: u64, j: int, virtual_nodes: nat) -> Seq<(u64, usize)> {
    Seq::new(virtual_nodes, |i: int| (virtual_hash(node_hash, i as u32), j as usize))
}

/// The ring of virtual nodes, node after node, for nodes whose keys hash to `hashes`.
pub open spec fn ring_of(hashes: Seq<u64>, virtual_nodes: nat) -> Seq<(u64, usize)>
    decreases hashes.len(),
{
    if hashes.len() == 0 {
        seq![]
    } else {
        ring_of(hashes.drop_last(), virtual_nodes) + node_ring(
            hashes.last(),
            hashes.len() - 1,
            virtual_nodes,
        )
    }
}

/// The node of the first virtual node, in ring order, whose hash is at least `h`.
pub open spec fn first_at_least(ring: Seq<(u64, usize)>, h: u64) -> Option<usize>
    decreases ring.len(),
{
    if ring.len() == 0 {
        None
    } else if ring[0].0 >= h {
        Some(ring[0].1)
    } else {
        first_at_least(ring.drop_first(), h)
    }
}

/// The node that a key with hash `h` falls to: the first virtual node whose hash is at
/// least `h`, else the first virtual node of all.
pub open spec fn ring_choice(ring: Seq<(u64, usize)>, h: u64) -> Option<usize> {
    match first_at_least(ring, h) {
        Some(j) => Some(j),
        None => if ring.len() > 0 {
            Some(ring[0].1)
        } else {
            None
        },
    }
}

/// Formats a value with its `Debug` impl (`format!("{:?}", ..)`). Nothing is stated of the
/// text: it is whatever the impl of the value's type writes.
#[verifier::external_body]
fn debug_text<T: Debug>(value: &T) -> String {
    format!("{:?}", value)
}

/// Appends the decimal digits of `n` to `out`.
fn push_decimal(out: &mut Vec<u8>, n: u64)
    ensures
        final(out)@ == old(out)@ + decimal_digits(n as nat),
    decreases n,
{
    if n >= 10 {
        push_decimal(out, n / 10);
    }
    let d = (48 + n % 10) as u8;
    out.push(d);
    proof {
        if n >= 10 {
            assert(decimal_digits(n as nat) == decimal_digits((n / 10) as nat).push(d));
        } else {
            assert(decimal_digits(n as nat) == seq![d]);
        }
    }
}

/// Hashes a text's bytes with a fresh `DefaultHasher`, as `str` does.
fn hash_bytes(bytes: &[u8]) -> (h: u64)
    ensures
        h == bytes_hash(bytes@),
{
    let mut hasher = DefaultHasher::new();
    hasher.write(bytes);
    let end: [u8; 1] = [0xffu8];
    assert(end@ =~= seq![0xffu8]);
    hasher.write(&end);
    assert(hasher@ =~= seq![bytes@, seq![0xffu8]]);
    hasher.finish()
}

/// Hash of the key of virtual node `i` of a node whose key hashes to `node_hash`.
fn virtual_node_hash(node_hash: u64, i: u32) -> (h: u64)
    ensures
        h == virtual_hash(node_hash, i),
{
    let mut key: Vec<u8> = Vec::new();
    push_decimal(&mut key, node_hash);
    push_decimal(&mut key, i as u64);
    assert(key@ =~= decimal_digits(node_hash as nat) + decimal_digits(i as nat));
    hash_bytes(key.as_slice())
}

proof fn lemma_ring_nodes(hashes: Seq<u64>, virtual_nodes: nat)
    ensures
        forall|k: int|
            0 <= k < ring_of(hashes, virtual_nodes).len() ==> (#[trigger] ring_of(
                hashes,
                virtual_nodes,
            )[k]).1 < hashes.len(),
        (ring_of(hashes, virtual_nodes).len() == 0) <==> (hashes.len() == 0 || virtual_nodes
            == 0),
    decreases hashes.len(),
{
    if hashes.len() > 0 {
        lemma_ring_nodes(hashes.drop_last(), virtual_nodes);
        let prev = ring_of(hashes.drop_last(), virtual_nodes);
        let last = node_ring(hashes.last(), hashes.len() - 1, virtual_nodes);
        assert forall|k: int|
            0 <= k < ring_of(hashes, virtual_nodes).len() implies (#[trigger] ring_of(
            hashes,
            virtual_nodes,
        )[k]).1 < hashes.len() by {
            if k >= prev.len() {
                assert(ring_of(hashes, virtual_nodes)[k] == last[k - prev.len()]);
            } else {
                assert(ring_of(hashes, virtual_nodes)[k] == prev[k]);
            }
        }
    }
}

/// Builds the ring of virtual nodes for nodes whose keys hash to `node_hashes`: for each
/// node in order, its `virtual_nodes` virtual nodes, the `i`-th keyed by the node's key
/// hash followed by `i`.
pub fn build_ring(node_hashes: &Vec<u64>, virtual_nodes: u32) -> (ring: Vec<(u64, usize)>)
    ensures
        ring@ == ring_of(node_hashes@, virtual_nodes as nat),
{
    let mut ring: Vec<(u64, usize)> = Vec::new();
    let n = node_hashes.len();
    for j in 0..n
        invariant
            n == node_hashes@.len(),
            ring@ == ring_of(node_hashes@.take(j as int), virtual_nodes as nat),
    {
        let h = node_hashes[j];
        let ghost before = ring@;
        for i in 0..virtual_nodes
            invariant
                h == node_hashes@[j as int],
                j < n,
                n == node_hashes@.len(),
                ring@ == before + node_ring(h, j as int, virtual_nodes as nat).take(i as int),
        {
            let v = virtual_node_hash(h, i);
            ring.push((v, j));
            assert(ring@ =~= before + node_ring(h, j as int, virtual_nodes as nat).take(
                i + 1,
            ));
        }
        proof {
            let t = node_hashes@.take(j + 1);
            assert(t.drop_last() =~= node_hashes@.take(j as int));
            assert(node_ring(h, j as int, virtual_nodes as nat).take(virtual_nodes as int)
                =~= node_ring(h, j as int, virtual_nodes as nat));
            assert(ring_of(t, virtual_nodes as nat) == ring_of(
                t.drop_last(),
                virtual_nodes as nat,
            ) + node_ring(t.last(), t.len() - 1, virtual_nodes as nat));
        }
    }
    assert(node_hashes@.take(n as int) =~= node_hashes@);
    ring
}

/// Picks the node that a key with hash `key_hash` falls to on `ring`: the node of the
/// first virtual node whose hash is at least `key_hash`, else that of the first one.
pub fn choose_in_ring(ring: &Vec<(u64, usize)>, key_hash: u64) -> (r: Option<usize>)
    ensures
        r == ring_choice(ring@, key_hash),
{
    let mut k: usize = 0;
    assert(ring@.skip(0) =~= ring@);
    while k < ring.len()
        invariant
            k <= ring@.len(),
            first_at_least(ring@, key_hash) == first_at_least(ring@.skip(k as int), key_hash),
        decreases ring.len() - k,
    {
        let (h, j) = ring[k];
        assert(ring@.skip(k as int).drop_first() =~= ring@.skip(k + 1));
        if h >= key_hash {
            return Some(j);
        }
        k = k + 1;
    }
    if ring.len() > 0 {
        Some(ring[0].1)
    } else {
        None
    }
}

/// Consistent hashing: spreads keys over nodes through a ring of virtual nodes.
pub struct ConsistentHash<T> where T: Hash + Eq + Debug {
    nodes: Vec<T>,
    virtual_nodes: u32,
}

impl<T> ConsistentHash<T> where T: Hash + Eq + Debug {
    /// The nodes, in the order they were given and added.
    pub closed spec fn node_list(&self) -> Seq<T> {
        self.nodes@
    }

    /// How many virtual nodes each node has on the ring.
    pub closed spec fn virtual_count(&self) -> u32 {
        self.virtual_nodes
    }

    pub fn new(nodes: Vec<T>, virtual_nodes: u32) -> (r: Self)
        ensures
            r.node_list() == nodes@,
            r.virtual_count() == virtual_nodes,
    {
        ConsistentHash { nodes, virtual_nodes }
    }

    /// The node that `key` falls to. Each node's key is its `Debug` text; the node's
    /// virtual nodes are keyed by the hash of that text followed by their number.
    ///
    /// There is a node exactly when there are nodes and virtual nodes; it is the node
    /// that `ring_choice` picks on the ring of the nodes' key hashes.
    pub fn get_node(&self, key: &str) -> (r: Option<&T>)
        ensures
            r is None <==> (self.node_list().len() == 0 || self.virtual_count() == 0),
            r matches Some(node) ==> exists|hashes: Seq<u64>, j: usize|
                {
                    &&& hashes.len() == self.node_list().len()
                    &&& ring_choice(ring_of(hashes, self.virtual_count() as nat), text_hash(key@))
                        == Some(j)
                    &&& j < self.node_list().len()
                    &&& *node == self.node_list()[j as int]
                },
    {
        if self.nodes.len() == 0 {
            return None;
        }
        let hash = self.hash(key);
        let mut node_hashes: Vec<u64> = Vec::new();
        for j in 0..self.nodes.len()
            invariant
                node_hashes@.len() == j,
        {
            let text = debug_text(&self.nodes[j]);
            node_hashes.push(self.hash(text.as_str()));
        }
        let ring = build_ring(&node_hashes, self.virtual_nodes);
        proof {
            lemma_ring_nodes(node_hashes@, self.virtual_nodes as nat);
        }
        match choose_in_ring(&ring, hash) {
            Some(j) => {
                proof {
                    assert(j < node_hashes@.len()) by {
                        if first_at_least(ring@, hash) is Some {
                            lemma_first_at_least_in_ring(ring@, hash);
                        }
                    }
                }
                assert(ring_choice(ring_of(node_hashes@, self.virtual_nodes as nat), text_hash(key@))
                    == Some(j));
                assert(node_hashes@.len() == self.node_list().len());
                assert({
                    &&& node_hashes@.len() == self.node_list().len()
                    &&& ring_choice(ring_of(node_hashes@, self.virtual_count() as nat), text_hash(key@))
                        == Some(j)
                    &&& j < self.node_list().len()
                    &&& self.nodes@[j as int] == self.node_list()[j as int]
                });
                Some(&self.nodes[j])
            },
            None => None,
        }
    }

    pub fn add_node(&mut self, node: T)
        ensures
            final(self).node_list() == old(self).node_list().push(node),
            final(self).virtual_count() == old(self).virtual_count(),
    {
        self.nodes.push(node);
    }

    /// Removes the first node that `==` finds equal to `node`, if there is one.
    pub fn remove_node(&mut self, node: &T)
        ensures
            final(self).virtual_count() == old(self).virtual_count(),
            exists|p: int| #[trigger] removed_first_equal_at(old(self).node_list(), final(self).node_list(), node, p),
            T::obeys_eq_spec() ==> final(self).node_list() == remove_first_equal(
                old(self).node_list(),
                node,
            ),
    {
        let equal = <T as PartialEq>::eq;
        let mut i: usize = 0;
        while i < self.nodes.len()
            invariant
                i <= self.nodes@.len(),
                self.nodes@ == old(self).nodes@,
                self.virtual_nodes == old(self).virtual_nodes,
                T::obeys_eq_spec() ==> forall|k: int|
                    0 <= k < i ==> !(#[trigger] self.nodes@[k]).eq_spec(node),
                forall|k: int|
                    0 <= k < i ==> call_ensures(<T as PartialEq>::eq, (&#[trigger] self.nodes@[k], node), false),
            decreases self.nodes.len() - i,
        {
            let found = equal(&self.nodes[i], node);
            if found {
                let ghost before = self.nodes@;
                self.nodes.remove(i);
                proof {
                    if T::obeys_eq_spec() {
                        lemma_remove_first_equal(before, node, i as int);
                    }
                    assert(self.nodes@ == before.remove(i as int));
                    assert(removed_first_equal_at(before, self.nodes@, node, i as int));
                    assert(removed_first_equal_at(old(self).node_list(), self.node_list(), node, i as int));
                }
                return;
            }
            i = i + 1;
        }
        proof {
            if T::obeys_eq_spec() {
                lemma_remove_first_equal_absent(self.nodes@, node);
            }
            assert(removed_first_equal_at(self.nodes@, self.nodes@, node, self.nodes@.len() as int));
            assert(removed_first_equal_at(
                old(self).node_list(),
                self.node_list(),
                node,
                self.nodes@.len() as int,
            ));
        }
    }

    /// Hashes a text with a fresh `DefaultHasher`.
    fn hash(&self, key: &str) -> (h: u64)
        ensures
            h == text_hash(key@),
    {
        hash_bytes(key.as_bytes())
    }
}

/// `s` without its first element that `eq_spec` finds equal to `x`; `s` when there is none.
/// `after` is `before` with the element at `p` taken out, where `p` is the first position
/// at which `==` answered that the element equals `x`; `p` is the length, and nothing is
/// taken out, when it answered so nowhere.
pub open spec fn removed_first_equal_at<T: PartialEq>(before: Seq<T>, after: Seq<T>, x: &T, p: int) -> bool {
    &&& 0 <= p <= before.len()
    &&& forall|k: int| 0 <= k < p ==> call_ensures(<T as PartialEq>::eq, (&#[trigger] before[k], x), false)
    &&& p < before.len() ==> call_ensures(<T as PartialEq>::eq, (&before[p], x), true) && after
        == before.remove(p)
    &&& p == before.len() ==> after == before
}

pub open spec fn remove_first_equal<T: PartialEq>(s: Seq<T>, x: &T) -> Seq<T>
    decreases s.len(),
{
    if s.len() == 0 {
        s
    } else if s[0].eq_spec(x) {
        s.drop_first()
    } else {
        seq![s[0]] + remove_first_equal(s.drop_first(), x)
    }
}

proof fn lemma_remove_first_equal<T: PartialEq>(s: Seq<T>, x: &T, i: int)
    requires
        0 <= i < s.len(),
        s[i].eq_spec(x),
        forall|k: int| 0 <= k < i ==> !(#[trigger] s[k]).eq_spec(x),
    ensures
        remove_first_equal(s, x) == s.remove(i),
    decreases i,
{
    if i > 0 {
        lemma_remove_first_equal(s.drop_first(), x, i - 1);
        assert(s.remove(i) =~= seq![s[0]] + s.drop_first().remove(i - 1));
    } else {
        assert(s.remove(0) =~= s.drop_first());
    }
}

/// Adding a node that no present node equals, then removing it, leaves the nodes as they
/// were.
pub proof fn lemma_add_then_remove<T: PartialEq>(nodes: Seq<T>, n: T)
    requires
        n.eq_spec(&n),
        forall|k: int| 0 <= k < nodes.len() ==> !(#[trigger] nodes[k]).eq_spec(&n),
    ensures
        remove_first_equal(nodes.push(n), &n) == nodes,
{
    lemma_remove_first_equal(nodes.push(n), &n, nodes.len() as int);
    assert(nodes.push(n).remove(nodes.len() as int) =~= nodes);
}

proof fn lemma_remove_first_equal_absent<T: PartialEq>(s: Seq<T>, x: &T)
    requires
        forall|k: int| 0 <= k < s.len() ==> !(#[trigger] s[k]).eq_spec(x),
    ensures
        remove_first_equal(s, x) == s,
    decreases s.len(),
{
    if s.len() > 0 {
        lemma_remove_first_equal_absent(s.drop_first(), x);
        assert(seq![s[0]] + s.drop_first() =~= s);
    }
}

proof fn lemma_first_at_least_in_ring(ring: Seq<(u64, usize)>, h: u64)
    requires
        first_at_least(ring, h) is Some,
    ensures
        exists|k: int| 0 <= k < ring.len() && ring[k].1 == first_at_least(ring, h).unwrap(),
    decreases ring.len(),
{
    if ring[0].0 < h {
        lemma_first_at_least_in_ring(ring.drop_first(), h);
        let k = choose|k: int|
            0 <= k < ring.drop_first().len() && ring.drop_first()[k].1 == first_at_least(
                ring.drop_first(),
                h,
            ).unwrap();
        assert(ring[k + 1].1 == first_at_least(ring, h).unwrap());
    }
}

proof fn lemma_first_at_least_concat(a: Seq<(u64, usize)>, b: Seq<(u64, usize)>, h: u64)
    ensures
        first_at_least(a + b, h) == (if first_at_least(a, h) is Some {
            first_at_least(a, h)
        } else {
            first_at_least(b, h)
        }),
    decreases a.len(),
{
    if a.len() == 0 {
        assert(a + b =~= b);
    } else {
        assert((a + b)[0] == a[0]);
        assert((a + b).drop_first() =~= a.drop_first() + b);
        lemma_first_at_least_concat(a.drop_first(), b, h);
    }
}

proof fn lemma_first_at_least_one_node(ring: Seq<(u64, usize)>, h: u64, j: usize)
    requires
        forall|k: int| 0 <= k < ring.len() ==> (#[trigger] ring[k]).1 == j,
    ensures
        first_at_least(ring, h) is None || first_at_least(ring, h) == Some(j),
{
    if first_at_least(ring, h) is Some {
        lemma_first_at_least_in_ring(ring, h);
    }
}

proof fn lemma_ring_push(hashes: Seq<u64>, x: u64, virtual_nodes: nat)
    ensures
        ring_of(hashes.push(x), virtual_nodes) == ring_of(hashes, virtual_nodes) + node_ring(
            x,
            hashes.len() as int,
            virtual_nodes,
        ),
{
    assert(hashes.push(x).drop_last() =~= hashes);
}

/// Adding a node moves a key only to the new node: on the ring of one more node, a key
/// falls to the node it fell to before, or to the new one.
pub proof fn lemma_ring_add_node(hashes: Seq<u64>, new_hash: u64, virtual_nodes: nat, h: u64)
    ensures
        ring_choice(ring_of(hashes.push(new_hash), virtual_nodes), h) == ring_choice(
            ring_of(hashes, virtual_nodes),
            h,
        ) || ring_choice(ring_of(hashes.push(new_hash), virtual_nodes), h) == Some(
            hashes.len() as usize,
        ),
{
    let old_ring = ring_of(hashes, virtual_nodes);
    let added = node_ring(new_hash, hashes.len() as int, virtual_nodes);
    lemma_ring_push(hashes, new_hash, virtual_nodes);
    lemma_first_at_least_concat(old_ring, added, h);
    lemma_first_at_least_one_node(added, h, hashes.len() as usize);
    if old_ring.len() > 0 {
        assert((old_ring + added)[0] == old_ring[0]);
    } else {
        assert(old_ring + added =~= added);
    }
}

/// The number of node `j` once node `p` is gone.
pub open spec fn shifted(j: usize, p: int) -> usize {
    if j < p {
        j
    } else {
        (j - 1) as usize
    }
}

/// The ring without the virtual nodes of node `p`, the later nodes renumbered.
pub open spec fn without_node(ring: Seq<(u64, usize)>, p: int) -> Seq<(u64, usize)>
    decreases ring.len(),
{
    if ring.len() == 0 {
        ring
    } else {
        let rest = without_node(ring.drop_first(), p);
        if ring[0].1 == p {
            rest
        } else {
            seq![(ring[0].0, shifted(ring[0].1, p))] + rest
        }
    }
}

proof fn lemma_without_concat(a: Seq<(u64, usize)>, b: Seq<(u64, usize)>, p: int)
    ensures
        without_node(a + b, p) == without_node(a, p) + without_node(b, p),
    decreases a.len(),
{
    if a.len() == 0 {
        assert(a + b =~= b);
        assert(without_node(a, p) + without_node(b, p) =~= without_node(b, p));
    } else {
        assert((a + b)[0] == a[0]);
        assert((a + b).drop_first() =~= a.drop_first() + b);
        lemma_without_concat(a.drop_first(), b, p);
        if a[0].1 != p {
            assert(seq![(a[0].0, shifted(a[0].1, p))] + (without_node(a.drop_first(), p)
                + without_node(b, p)) =~= (seq![(a[0].0, shifted(a[0].1, p))] + without_node(
                a.drop_first(),
                p,
            )) + without_node(b, p));
        }
    }
}

proof fn lemma_without_only_p(s: Seq<(u64, usize)>, p: int)
    requires
        forall|k: int| 0 <= k < s.len() ==> (#[trigger] s[k]).1 == p,
    ensures
        without_node(s, p) == Seq::<(u64, usize)>::empty(),
    decreases s.len(),
{
    if s.len() > 0 {
        assert forall|k: int| 0 <= k < s.drop_first().len() implies (
        #[trigger] s.drop_first()[k]).1 == p by {
            assert(s.drop_first()[k] == s[k + 1]);
        }
        lemma_without_only_p(s.drop_first(), p);
    }
}

proof fn lemma_without_no_p(s: Seq<(u64, usize)>, p: int)
    requires
        forall|k: int| 0 <= k < s.len() ==> (#[trigger] s[k]).1 != p,
    ensures
        without_node(s, p) == s.map_values(|e: (u64, usize)| (e.0, shifted(e.1, p))),
    decreases s.len(),
{
    if s.len() > 0 {
        assert forall|k: int| 0 <= k < s.drop_first().len() implies (
        #[trigger] s.drop_first()[k]).1 != p by {
            assert(s.drop_first()[k] == s[k + 1]);
        }
        lemma_without_no_p(s.drop_first(), p);
        assert(seq![(s[0].0, shifted(s[0].1, p))] + s.drop_first().map_values(
            |e: (u64, usize)| (e.0, shifted(e.1, p)),
        ) =~= s.map_values(|e: (u64, usize)| (e.0, shifted(e.1, p))));
    }
}

proof fn lemma_without_node_ring(node_hash: u64, j: int, virtual_nodes: nat, p: int)
    requires
        0 <= j,
        j <= usize::MAX,
    ensures
        without_node(node_ring(node_hash, j, virtual_nodes), p) == (if j == p {
            Seq::<(u64, usize)>::empty()
        } else {
            node_ring(node_hash, shifted(j as usize, p) as int, virtual_nodes)
        }),
{
    let r = node_ring(node_hash, j, virtual_nodes);
    if j == p {
        lemma_without_only_p(r, p);
    } else {
        lemma_without_no_p(r, p);
        assert(r.map_values(|e: (u64, usize)| (e.0, shifted(e.1, p))) =~= node_ring(
            node_hash,
            shifted(j as usize, p) as int,
            virtual_nodes,
        ));
    }
}

proof fn lemma_ring_remove(hashes: Seq<u64>, p: int, virtual_nodes: nat)
    requires
        0 <= p < hashes.len(),
        hashes.len() <= usize::MAX,
    ensures
        ring_of(hashes.remove(p), virtual_nodes) == without_node(ring_of(hashes, virtual_nodes), p),
    decreases hashes.len(),
{
    let init = hashes.drop_last();
    let n = hashes.len() as int;
    let last_ring = node_ring(hashes.last(), n - 1, virtual_nodes);
    lemma_without_concat(ring_of(init, virtual_nodes), last_ring, p);
    lemma_without_node_ring(hashes.last(), n - 1, virtual_nodes, p);
    if p == n - 1 {
        assert(hashes.remove(p) =~= init);
        lemma_ring_nodes(init, virtual_nodes);
        lemma_without_no_p(ring_of(init, virtual_nodes), p);
        assert(ring_of(init, virtual_nodes).map_values(|e: (u64, usize)| (e.0, shifted(e.1, p)))
            =~= ring_of(init, virtual_nodes));
        assert(without_node(ring_of(init, virtual_nodes), p) + Seq::<(u64, usize)>::empty()
            =~= ring_of(init, virtual_nodes));
    } else {
        lemma_ring_remove(init, p, virtual_nodes);
        assert(hashes.remove(p) =~= init.remove(p).push(hashes.last()));
        lemma_ring_push(init.remove(p), hashes.last(), virtual_nodes);
        assert(shifted((n - 1) as usize, p) == n - 2);
    }
}

proof fn lemma_first_at_least_without(ring: Seq<(u64, usize)>, p: int, h: u64)
    requires
        first_at_least(ring, h) matches Some(j) ==> j != p,
        0 <= p,
    ensures
        first_at_least(without_node(ring, p), h) == (match first_at_least(ring, h) {
            Some(j) => Some(shifted(j, p)),
            None => None,
        }),
    decreases ring.len(),
{
    if ring.len() > 0 {
        let rest = ring.drop_first();
        if ring[0].1 == p {
            assert(ring[0].0 < h);
            lemma_first_at_least_without(rest, p, h);
        } else {
            let head = seq![(ring[0].0, shifted(ring[0].1, p))];
            let w = head + without_node(rest, p);
            assert(w[0] == head[0]);
            assert(w.drop_first() =~= without_node(rest, p));
            if ring[0].0 < h {
                lemma_first_at_least_without(rest, p, h);
            }
        }
    }
}

/// Removing node `p` leaves every key that fell to another node with that node, under
/// its number in the shorter list.
pub proof fn lemma_ring_remove_node(hashes: Seq<u64>, p: int, virtual_nodes: nat, h: u64)
    requires
        0 <= p < hashes.len(),
        hashes.len() <= usize::MAX,
        ring_choice(ring_of(hashes, virtual_nodes), h) matches Some(j) && j != p,
    ensures
        ring_choice(ring_of(hashes.remove(p), virtual_nodes), h) == Some(
            shifted(ring_choice(ring_of(hashes, virtual_nodes), h).unwrap(), p),
        ),
{
    let ring = ring_of(hashes, virtual_nodes);
    lemma_ring_remove(hashes, p, virtual_nodes);
    lemma_first_at_least_without(ring, p, h);
    if first_at_least(ring, h) is None {
        let rest = ring.drop_first();
        assert(ring[0].1 != p);
        let w = seq![(ring[0].0, shifted(ring[0].1, p))] + without_node(rest, p);
        assert(w[0] == (ring[0].0, shifted(ring[0].1, p)));
    }
}

} // verus!

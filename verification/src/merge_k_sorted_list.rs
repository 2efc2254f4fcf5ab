//! Merging k sorted singly linked lists into one sorted list.

use vstd::prelude::*;
use vstd::seq_lib::*;

verus! {

/// A node of a singly linked list of 32-bit integers.
#[derive(PartialEq, Eq, Debug)]
pub struct ListNode {
    pub val: i32,
    pub next: Option<Box<ListNode>>,
}

impl ListNode {
    pub fn new(val: i32) -> (n: Self)
        ensures
            n.val == val,
            n.next is None,
    {
        ListNode { next: None, val }
    }
}

/// The values held by a list, front to back.
pub open spec fn vals_of(list: Option<Box<ListNode>>) -> Seq<i32>
    decreases list,
{
    match list {
        None => seq![],
        Some(n) => seq![n.val] + vals_of(n.next),
    }
}

/// The sequence is in nondecreasing order.
pub open spec fn sorted(s: Seq<i32>) -> bool {
    forall|i: int, j: int| 0 <= i <= j < s.len() ==> s[i] <= s[j]
}

/// The values of a sequence of list heads, concatenated.
pub open spec fn node_seq_vals(nodes: Seq<Box<ListNode>>) -> Seq<i32>
    decreases nodes.len(),
{
    if nodes.len() == 0 {
        seq![]
    } else {
        vals_of(Some(nodes[0])) + node_seq_vals(nodes.drop_first())
    }
}

/// The values of a sequence of lists, concatenated.
pub open spec fn lists_vals(lists: Seq<Option<Box<ListNode>>>) -> Seq<i32>
    decreases lists.len(),
{
    if lists.len() == 0 {
        seq![]
    } else {
        vals_of(lists[0]) + lists_vals(lists.drop_first())
    }
}

proof fn lemma_node_seq_concat(a: Seq<Box<ListNode>>, b: Seq<Box<ListNode>>)
    ensures
        node_seq_vals(a + b) == node_seq_vals(a) + node_seq_vals(b),
    decreases a.len(),
{
    if a.len() == 0 {
        assert(a + b =~= b);
        assert(node_seq_vals(a) + node_seq_vals(b) =~= node_seq_vals(b));
    } else {
        lemma_node_seq_concat(a.drop_first(), b);
        assert((a + b).drop_first() =~= a.drop_first() + b);
        assert(node_seq_vals(a + b) =~= node_seq_vals(a) + node_seq_vals(b));
    }
}

proof fn lemma_lists_concat(a: Seq<Option<Box<ListNode>>>, b: Seq<Option<Box<ListNode>>>)
    ensures
        lists_vals(a + b) == lists_vals(a) + lists_vals(b),
    decreases a.len(),
{
    if a.len() == 0 {
        assert(a + b =~= b);
        assert(lists_vals(a) + lists_vals(b) =~= lists_vals(b));
    } else {
        lemma_lists_concat(a.drop_first(), b);
        assert((a + b).drop_first() =~= a.drop_first() + b);
        assert(lists_vals(a + b) =~= lists_vals(a) + lists_vals(b));
    }
}

proof fn lemma_node_singleton(x: Box<ListNode>)
    ensures
        node_seq_vals(seq![x]) == vals_of(Some(x)),
{
    assert(seq![x].drop_first() =~= Seq::<Box<ListNode>>::empty());
    assert(node_seq_vals(Seq::<Box<ListNode>>::empty()) == Seq::<i32>::empty());
    assert(node_seq_vals(seq![x]) =~= vals_of(Some(x)));
}

proof fn lemma_lists_singleton(x: Option<Box<ListNode>>)
    ensures
        lists_vals(seq![x]) == vals_of(x),
{
    assert(seq![x].drop_first() =~= Seq::<Option<Box<ListNode>>>::empty());
    assert(lists_vals(Seq::<Option<Box<ListNode>>>::empty()) == Seq::<i32>::empty());
    assert(lists_vals(seq![x]) =~= vals_of(x));
}

/// Merges the given lists into a single list holding the same values; when
/// every input list is sorted, the result is sorted.
pub fn merge_k_lists(lists: Vec<Option<Box<ListNode>>>) -> (r: Option<Box<ListNode>>)
    ensures
        vals_of(r).to_multiset() == lists_vals(lists@).to_multiset(),
        r is Some <==> lists_vals(lists@).len() > 0,
        (forall|k: int| 0 <= k < lists@.len() ==> sorted(vals_of(#[trigger] lists@[k]))) ==> sorted(
            vals_of(r),
        ),
{
    broadcast use vstd::seq_lib::group_to_multiset_ensures;
    broadcast use vstd::multiset::group_multiset_axioms;

    let ghost total: Seq<i32> = lists_vals(lists@);
    let ghost all_sorted: bool = forall|k: int|
        0 <= k < lists@.len() ==> sorted(vals_of(#[trigger] lists@[k]));

    // Move every nonempty list's head node into the working pool.
    let mut rem = lists;
    let mut heap: Vec<Box<ListNode>> = Vec::new();
    while rem.len() > 0
        invariant
            node_seq_vals(heap@).to_multiset().add(lists_vals(rem@).to_multiset())
                == total.to_multiset(),
            all_sorted ==> forall|k: int|
                0 <= k < heap@.len() ==> sorted(vals_of(Some(#[trigger] heap@[k]))),
            all_sorted ==> forall|k: int|
                0 <= k < rem@.len() ==> sorted(vals_of(#[trigger] rem@[k])),
        decreases rem@.len(),
    {
        let ghost rem_before = rem@;
        let ghost heap_before = heap@;
        let list = rem.pop().unwrap();
        let ghost lv = vals_of(list);
        proof {
            assert(rem_before =~= rem@ + seq![list]);
            lemma_lists_concat(rem@, seq![list]);
            lemma_lists_singleton(list);
            lemma_multiset_commutative(lists_vals(rem@), lv);
        }
        match list {
            Some(node) => {
                heap.push(node);
                proof {
                    assert(heap@ =~= heap_before + seq![node]);
                    lemma_node_seq_concat(heap_before, seq![node]);
                    lemma_node_singleton(node);
                    lemma_multiset_commutative(node_seq_vals(heap_before), lv);
                    assert(node_seq_vals(heap@).to_multiset().add(lists_vals(rem@).to_multiset())
                        =~= total.to_multiset());
                }
            },
            None => {
                proof {
                    assert(lv =~= Seq::<i32>::empty());
                    assert(node_seq_vals(heap@).to_multiset().add(lists_vals(rem@).to_multiset())
                        =~= total.to_multiset());
                }
            },
        }
    }

    // Repeatedly extract the node with the least value, feeding its
    // successor back into the pool.
    let mut popped: Vec<i32> = Vec::new();
    while heap.len() > 0
        invariant
            popped@.to_multiset().add(node_seq_vals(heap@).to_multiset()) == total.to_multiset(),
            all_sorted ==> sorted(popped@),
            all_sorted ==> forall|k: int|
                0 <= k < heap@.len() ==> sorted(vals_of(Some(#[trigger] heap@[k]))),
            all_sorted ==> forall|k: int|
                0 <= k < heap@.len() && popped@.len() > 0 ==> popped@.last() <= (
                #[trigger] heap@[k]).val,
        decreases node_seq_vals(heap@).len(),
    {
        let mut m: usize = 0;
        let mut j: usize = 1;
        while j < heap.len()
            invariant
                heap@.len() > 0,
                m < j <= heap@.len(),
                forall|k: int| 0 <= k < j ==> heap@[m as int].val <= (#[trigger] heap@[k]).val,
            decreases heap@.len() - j,
        {
            if heap[j].val < heap[m].val {
                m = j;
            }
            j = j + 1;
        }

        let ghost s = heap@;
        let ghost sub1 = s.subrange(0, m as int);
        let ghost sub2 = s.subrange(m as int + 1, s.len() as int);
        let node: Box<ListNode> = heap.remove(m);
        let ghost nv = vals_of(Some(node));
        let ghost rest = vals_of(node.next);
        proof {
            // Split the pool's value sequence around the removed node.
            assert(s =~= (sub1 + seq![node]) + sub2);
            lemma_node_seq_concat(sub1 + seq![node], sub2);
            lemma_node_seq_concat(sub1, seq![node]);
            lemma_node_singleton(node);
            assert(heap@ =~= sub1 + sub2);
            lemma_node_seq_concat(sub1, sub2);
            lemma_multiset_commutative(node_seq_vals(sub1) + nv, node_seq_vals(sub2));
            lemma_multiset_commutative(node_seq_vals(sub1), nv);
            lemma_multiset_commutative(node_seq_vals(sub1), node_seq_vals(sub2));
            assert(nv == seq![node.val] + rest);
            lemma_multiset_commutative(seq![node.val], rest);
            // The removed node held the least value in the pool.
            assert(forall|k: int| 0 <= k < s.len() ==> node.val <= (#[trigger] s[k]).val);
        }
        let ghost nval = node.val;
        proof {
            if all_sorted {
                assert(sorted(nv));
                assert(forall|i: int| 0 <= i < rest.len() ==> nv[i + 1] == rest[i]);
                assert(sorted(rest));
                if rest.len() > 0 {
                    assert(nv[0] == nval);
                    assert(nv[1] == rest[0]);
                    assert(nv[0] <= nv[1]);
                }
                assert(rest.len() > 0 ==> nval <= rest[0]);
            }
        }
        let ghost popped_before = popped@;
        let inner: ListNode = *node;
        popped.push(inner.val);
        proof {
            assert(inner.val == nval);
            assert(popped@ =~= popped_before + seq![inner.val]);
            lemma_multiset_commutative(popped_before, seq![inner.val]);
        }
        match inner.next {
            Some(b) => {
                let ghost heap_mid = heap@;
                heap.push(b);
                proof {
                    assert(heap@ =~= heap_mid + seq![b]);
                    lemma_node_seq_concat(heap_mid, seq![b]);
                    lemma_node_singleton(b);
                    lemma_multiset_commutative(node_seq_vals(heap_mid), rest);
                    assert(rest == vals_of(Some(b)));
                    assert(rest[0] == b.val);
                    assert(popped@.to_multiset().add(node_seq_vals(heap@).to_multiset())
                        =~= total.to_multiset());
                }
            },
            None => {
                proof {
                    assert(rest =~= Seq::<i32>::empty());
                    assert(popped@.to_multiset().add(node_seq_vals(heap@).to_multiset())
                        =~= total.to_multiset());
                }
            },
        }
    }

    // Rebuild the merged list from the collected values, back to front.
    proof {
        assert(node_seq_vals(heap@) =~= Seq::<i32>::empty());
        assert(popped@.to_multiset() =~= total.to_multiset());
        assert(popped@.len() == popped@.to_multiset().len());
        assert(total.len() == total.to_multiset().len());
    }
    let mut head: Option<Box<ListNode>> = None;
    let mut i: usize = popped.len();
    while i > 0
        invariant
            i <= popped@.len(),
            vals_of(head) == popped@.subrange(i as int, popped@.len() as int),
        decreases i,
    {
        i = i - 1;
        let node = ListNode { val: popped[i], next: head };
        head = Some(Box::new(node));
        proof {
            assert(vals_of(head) =~= popped@.subrange(i as int, popped@.len() as int));
        }
    }
    proof {
        assert(vals_of(head) =~= popped@);
    }
    head
}

} // verus!

//! What holds of every tree that merging makes of a table.

use crate::nodes::{
    code_symbols, code_table_covers_leaves, code_table_is_prefix_free, prefix_free, Node,
};
use crate::utils::{
    code_view, cross_check_outcome, distinct_symbols, first_lightest, lists_symbol, huffman_tree, leaf_queue, lemma_first_lightest, lemma_queue_weight_remove,
    merge_rounds, merge_step, queue_weight, total_weight,
};
use vstd::multiset::Multiset;
use vstd::prelude::*;

verus! {

/// The symbols of a table, in its order.
pub open spec fn table_symbols(table: Seq<(char, u64)>) -> Seq<char> {
    Seq::new(table.len(), |i: int| table[i].0)
}

/// The symbols at the leaves of all nodes of a queue, each as often as it occurs.
pub open spec fn queue_symbols(queue: Seq<Node>) -> Multiset<char>
    decreases queue.len(),
{
    if queue.len() == 0 {
        Multiset::empty()
    } else {
        queue_symbols(queue.drop_last()).add(queue.last().symbols().to_multiset())
    }
}

/// Every node of the queue carries the weight of the leaves beneath it.
pub open spec fn queue_well_formed(queue: Seq<Node>) -> bool {
    forall|i: int| 0 <= i < queue.len() ==> (#[trigger] queue[i]).well_formed()
}

proof fn lemma_empty_bag(symbols: Seq<char>)
    requires
        symbols.len() == 0,
    ensures
        symbols.to_multiset() == Multiset::<char>::empty(),
{
    symbols.to_multiset_ensures();
    assert forall|c: char| symbols.to_multiset().count(c) == 0 by {
        assert(!symbols.contains(c));
    }
    assert(symbols.to_multiset() =~= Multiset::<char>::empty());
}

proof fn lemma_queue_symbols_remove(queue: Seq<Node>, i: int)
    requires
        0 <= i < queue.len(),
    ensures
        queue_symbols(queue.remove(i)).add(queue[i].symbols().to_multiset()) == queue_symbols(
            queue,
        ),
    decreases queue.len(),
{
    if i == queue.len() - 1 {
        assert(queue.remove(i) =~= queue.drop_last());
    } else {
        lemma_queue_symbols_remove(queue.drop_last(), i);
        assert(queue.remove(i).drop_last() =~= queue.drop_last().remove(i));
        assert(queue.remove(i).last() == queue.last());
        assert(queue_symbols(queue.remove(i)).add(queue[i].symbols().to_multiset())
            =~= queue_symbols(queue));
    }
}

/// One round of merging shortens the queue by one node and keeps its
/// symbols, its weight and the well-formedness of its nodes.
proof fn lemma_merge_step(queue: Seq<Node>)
    requires
        queue.len() >= 2,
        queue_weight(queue) <= u64::MAX,
        queue_well_formed(queue),
    ensures
        merge_step(queue).len() == queue.len() - 1,
        queue_weight(merge_step(queue)) == queue_weight(queue),
        queue_symbols(merge_step(queue)) == queue_symbols(queue),
        queue_well_formed(merge_step(queue)),
{
    broadcast use vstd::seq_lib::lemma_multiset_commutative;

    let i = first_lightest(queue);
    lemma_first_lightest(queue);
    let rest = queue.remove(i);
    let j = first_lightest(rest);
    lemma_first_lightest(rest);
    let others = rest.remove(j);
    let a = queue[i];
    let b = rest[j];
    let joined = Node::join(a, b);
    let after = others.push(joined);
    lemma_queue_weight_remove(queue, i);
    lemma_queue_weight_remove(rest, j);
    lemma_queue_symbols_remove(queue, i);
    lemma_queue_symbols_remove(rest, j);
    assert(after.drop_last() =~= others);
    assert(after.last() == joined);
    assert(joined.symbols() == a.symbols() + b.symbols());
    assert(queue_symbols(after) =~= queue_symbols(queue));
    assert(a.well_formed());
    assert(b.well_formed()) by {
        assert(rest[j] == queue[if j < i { j } else { j + 1 }]);
    }
    assert(joined.well_formed());
    assert forall|k: int| 0 <= k < after.len() implies (#[trigger] after[k]).well_formed() by {
        if k < others.len() {
            let r = if k < j { k } else { k + 1 };
            assert(after[k] == rest[r]);
            assert(rest[r] == queue[if r < i { r } else { r + 1 }]);
        }
    }
}

proof fn lemma_merge_rounds(queue: Seq<Node>, rounds: nat)
    requires
        queue.len() >= 1,
        rounds + 1 >= queue.len(),
        queue_weight(queue) <= u64::MAX,
        queue_well_formed(queue),
    ensures
        merge_rounds(queue, rounds).well_formed(),
        merge_rounds(queue, rounds).weight == queue_weight(queue),
        merge_rounds(queue, rounds).symbols().to_multiset() == queue_symbols(queue),
    decreases rounds,
{
    if queue.len() == 1 {
        assert(queue.drop_last().len() == 0);
        assert(queue.last() == queue[0]);
        assert(queue_weight(queue.drop_last()) == 0);
        assert(queue_symbols(queue.drop_last()) =~= Multiset::empty());
        assert(queue_symbols(queue) =~= queue[0].symbols().to_multiset());
    } else {
        lemma_merge_step(queue);
        lemma_merge_rounds(merge_step(queue), (rounds - 1) as nat);
    }
}

proof fn lemma_leaf_queue(table: Seq<(char, u64)>)
    ensures
        queue_weight(leaf_queue(table)) == total_weight(table),
        queue_symbols(leaf_queue(table)) == table_symbols(table).to_multiset(),
        queue_well_formed(leaf_queue(table)),
    decreases table.len(),
{
    broadcast use vstd::seq_lib::to_multiset_build;

    if table.len() == 0 {
        lemma_empty_bag(table_symbols(table));
    } else {
        let front = table.drop_last();
        lemma_leaf_queue(front);
        assert(leaf_queue(table).drop_last() =~= leaf_queue(front));
        assert(table_symbols(table) =~= table_symbols(front).push(table.last().0));
        assert(leaf_queue(table).last().symbols() =~= Seq::<char>::empty().push(table.last().0));
        lemma_empty_bag(Seq::<char>::empty());
        assert(queue_symbols(leaf_queue(table)) =~= table_symbols(table).to_multiset());
    }
}

/// The tree of a table holds the table's symbols at its leaves, each as
/// often as the table names it; every node carries the weight of the leaves
/// beneath it, and the root the weight of the whole table.
pub proof fn huffman_tree_holds_the_table(table: Seq<(char, u64)>)
    requires
        table.len() > 0,
        total_weight(table) <= u64::MAX,
    ensures
        huffman_tree(table).symbols().to_multiset() == table_symbols(table).to_multiset(),
        huffman_tree(table).well_formed(),
        huffman_tree(table).weight == total_weight(table),
{
    lemma_leaf_queue(table);
    lemma_merge_rounds(leaf_queue(table), table.len());
}

/// The code table of a table's tree is prefix-free, gives no symbol an empty
/// code, and names the table's symbols, each as often as the table does.
pub proof fn huffman_code_is_a_prefix_code(table: Seq<(char, u64)>)
    requires
        table.len() > 0,
        total_weight(table) <= u64::MAX,
    ensures
        prefix_free(huffman_tree(table).code_table()),
        forall|i: int|
            0 <= i < huffman_tree(table).code_table().len() ==> (
            #[trigger] huffman_tree(table).code_table()[i]).1.len() >= 1,
        huffman_tree(table).code_table().len() == table.len(),
        code_symbols(huffman_tree(table).code_table()).to_multiset() == table_symbols(
            table,
        ).to_multiset(),
{
    let tree = huffman_tree(table);
    huffman_tree_holds_the_table(table);
    code_table_is_prefix_free(tree);
    code_table_covers_leaves(tree);
    tree.symbols().to_multiset_ensures();
    table_symbols(table).to_multiset_ensures();
}

/// A table and the code table of its tree speak of the same symbols: the
/// cross-check of the two finds nothing missing and nothing extra.
pub proof fn huffman_code_matches_its_table(table: Seq<(char, u64)>, codes: Seq<(char, String)>)
    requires
        table.len() > 0,
        total_weight(table) <= u64::MAX,
        code_view(codes) == huffman_tree(table).code_table(),
    ensures
        cross_check_outcome(table, codes, None),
{
    huffman_code_is_a_prefix_code(table);
    let named = table_symbols(table);
    let coded = code_symbols(code_view(codes));
    named.to_multiset_ensures();
    coded.to_multiset_ensures();
    assert forall|k: int| 0 <= k < table.len() implies lists_symbol(codes, (#[trigger] table[k]).0) by {
        assert(named[k] == table[k].0);
        assert(named.contains(table[k].0));
        assert(named.to_multiset().count(table[k].0) > 0);
        assert(coded.to_multiset().count(table[k].0) > 0);
        assert(coded.contains(table[k].0));
        let i = choose|i: int| 0 <= i < coded.len() && coded[i] == table[k].0;
        assert(codes[i].0 == table[k].0);
    }
    assert forall|k: int| 0 <= k < codes.len() implies lists_symbol(table, (#[trigger] codes[k]).0) by {
        assert(coded[k] == codes[k].0);
        assert(coded.contains(codes[k].0));
        assert(coded.to_multiset().count(codes[k].0) > 0);
        assert(named.to_multiset().count(codes[k].0) > 0);
        assert(named.contains(codes[k].0));
        let i = choose|i: int| 0 <= i < named.len() && named[i] == codes[k].0;
        assert(table[i].0 == codes[k].0);
    }
}

/// Where no symbol stands twice in a table, none stands twice in the code
/// table of its tree.
pub proof fn distinct_symbols_get_distinct_codes(
    table: Seq<(char, u64)>,
    codes: Seq<(char, String)>,
)
    requires
        table.len() > 0,
        total_weight(table) <= u64::MAX,
        code_view(codes) == huffman_tree(table).code_table(),
        distinct_symbols(table),
    ensures
        distinct_symbols(codes),
{
    huffman_code_is_a_prefix_code(table);
    let named = table_symbols(table);
    let coded = code_symbols(code_view(codes));
    assert(named.no_duplicates());
    named.lemma_multiset_has_no_duplicates();
    coded.lemma_multiset_has_no_duplicates_conv();
    assert forall|i: int, j: int| 0 <= i < j < codes.len() implies (#[trigger] codes[i]).0 != (
    #[trigger] codes[j]).0 by {
        assert(coded[i] == codes[i].0);
        assert(coded[j] == codes[j].0);
    }
}

/// Building is a function of the table alone: equal tables, entry by entry
/// and in the same order, have equal trees and equal code tables.
pub proof fn equal_tables_equal_trees(first: Seq<(char, u64)>, second: Seq<(char, u64)>)
    requires
        first.len() == second.len(),
        forall|i: int| 0 <= i < first.len() ==> first[i] == second[i],
    ensures
        huffman_tree(first) == huffman_tree(second),
        huffman_tree(first).code_table() == huffman_tree(second).code_table(),
{
    assert(first =~= second);
}

} // verus!

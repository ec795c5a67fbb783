use crate::errors::SymbolMappingError;
use crate::nodes::{
    code_symbols, code_table_covers_leaves, code_table_is_prefix_free, lemma_codes_prefix_free,
    prefix_free, CodeSpec, Node, NodeKind,
};
use crate::proofs::{
    distinct_symbols_get_distinct_codes, huffman_tree_holds_the_table, table_symbols,
};
use vstd::prelude::*;
use vstd::string::{StrSliceExecFns, StringExecFns};

verus! {

/// The sum of the weights of a table.
pub open spec fn total_weight(table: Seq<(char, u64)>) -> nat
    decreases table.len(),
{
    if table.len() == 0 {
        0
    } else {
        total_weight(table.drop_last()) + table.last().1 as nat
    }
}

/// The queue that tree building starts from: one leaf per entry, in the
/// table's order.
pub open spec fn leaf_queue(table: Seq<(char, u64)>) -> Seq<Node> {
    Seq::new(table.len(), |i: int| Node::leaf(table[i].0, table[i].1))
}

/// The sum of the weights of the nodes in a queue.
pub open spec fn queue_weight(queue: Seq<Node>) -> nat
    decreases queue.len(),
{
    if queue.len() == 0 {
        0
    } else {
        queue_weight(queue.drop_last()) + queue.last().weight as nat
    }
}

/// The place of the lightest node of a queue; among equally light nodes
/// the one that stands first, which is the one that entered first.
pub open spec fn first_lightest(queue: Seq<Node>) -> int
    decreases queue.len(),
{
    if queue.len() <= 1 {
        0
    } else {
        let before = first_lightest(queue.drop_last());
        if queue.last().weight < queue[before].weight {
            queue.len() - 1
        } else {
            before
        }
    }
}

/// One round of merging: the lightest node leaves the queue, then the
/// lightest of the rest; their join, the first as its left subtree, enters
/// at the end.
pub open spec fn merge_step(queue: Seq<Node>) -> Seq<Node> {
    let i = first_lightest(queue);
    let rest = queue.remove(i);
    let j = first_lightest(rest);
    rest.remove(j).push(Node::join(queue[i], rest[j]))
}

/// What is left of a queue after at most `rounds` rounds of merging, stopping
/// when one node remains.
pub open spec fn merge_rounds(queue: Seq<Node>, rounds: nat) -> Node
    decreases rounds,
{
    if rounds == 0 || queue.len() <= 1 {
        queue[0]
    } else {
        merge_rounds(merge_step(queue), (rounds - 1) as nat)
    }
}

/// The tree of a non-empty table: its leaves merged until one node remains.
pub open spec fn huffman_tree(table: Seq<(char, u64)>) -> Node {
    merge_rounds(leaf_queue(table), table.len())
}

/// A code table as mathematics: each entry's symbol, and its code as a
/// sequence of characters.
pub open spec fn code_view(codes: Seq<(char, String)>) -> Seq<CodeSpec> {
    Seq::new(codes.len(), |i: int| (codes[i].0, codes[i].1@))
}

/// The lightest node is no heavier than any node of the queue, and lighter
/// than every node that stands before it.
pub proof fn lemma_first_lightest(queue: Seq<Node>)
    requires
        queue.len() > 0,
    ensures
        0 <= first_lightest(queue) < queue.len(),
        forall|k: int|
            0 <= k < queue.len() ==> queue[first_lightest(queue)].weight <= (#[trigger] queue[k]).weight,
        forall|k: int|
            0 <= k < first_lightest(queue) ==> queue[first_lightest(queue)].weight < (
            #[trigger] queue[k]).weight,
    decreases queue.len(),
{
    if queue.len() > 1 {
        let front = queue.drop_last();
        lemma_first_lightest(front);
        assert forall|k: int| 0 <= k < queue.len() - 1 implies queue[k] == front[k] by {}
    }
}

/// A node that leaves a queue takes its weight with it.
pub proof fn lemma_queue_weight_remove(queue: Seq<Node>, i: int)
    requires
        0 <= i < queue.len(),
    ensures
        queue_weight(queue.remove(i)) + queue[i].weight == queue_weight(queue),
    decreases queue.len(),
{
    if i == queue.len() - 1 {
        assert(queue.remove(i) =~= queue.drop_last());
    } else {
        lemma_queue_weight_remove(queue.drop_last(), i);
        assert(queue.remove(i).drop_last() =~= queue.drop_last().remove(i));
        assert(queue.remove(i).last() == queue.last());
    }
}

/// Takes the lightest node out of the queue, the first of them where several
/// are equally light; the others keep their order.
fn take_lightest(queue: &mut Vec<Node>) -> (node: Node)
    requires
        old(queue)@.len() > 0,
    ensures
        node == old(queue)@[first_lightest(old(queue)@)],
        final(queue)@ == old(queue)@.remove(first_lightest(old(queue)@)),
{
    let mut best: usize = 0;
    let mut i: usize = 1;
    while i < queue.len()
        invariant
            1 <= i <= queue@.len(),
            0 <= best < i,
            best == first_lightest(queue@.take(i as int)),
        decreases queue@.len() - i,
    {
        proof {
            let next = queue@.take(i + 1);
            assert(next.drop_last() =~= queue@.take(i as int));
            assert(next.last() == queue@[i as int]);
            assert(next[best as int] == queue@[best as int]);
        }
        if queue[i].weight < queue[best].weight {
            best = i;
        }
        i += 1;
    }
    assert(queue@.take(i as int) =~= queue@);
    queue.remove(best)
}

/// Builds the code tree of a table of symbols and weights.
///
/// The leaves enter a queue in the table's order. While more than one node
/// is left, the two lightest leave it, the lighter first, and their join
/// enters at the end. Of equally light nodes the one that entered first
/// leaves first, so one table always gives one tree.
///
/// The queue is a vector in order of entry, searched for its lightest node,
/// so the time taken grows with the square of the number of symbols.
pub fn build(table: &Vec<(char, u64)>) -> (tree: Result<Node, SymbolMappingError>)
    requires
        total_weight(table@) <= u64::MAX,
    ensures
        table@.len() == 0 ==> tree == Err::<Node, SymbolMappingError>(
            SymbolMappingError::EmptyAlphabet,
        ),
        table@.len() > 0 ==> {
            &&& tree == Ok::<Node, SymbolMappingError>(huffman_tree(table@))
            &&& tree->Ok_0.well_formed()
            &&& tree->Ok_0.weight == total_weight(table@)
            &&& tree->Ok_0.symbols().to_multiset() == table_symbols(table@).to_multiset()
        },
{
    if table.len() == 0 {
        return Err(SymbolMappingError::EmptyAlphabet);
    }
    proof {
        huffman_tree_holds_the_table(table@);
    }
    let mut queue: Vec<Node> = Vec::new();
    let mut i: usize = 0;
    while i < table.len()
        invariant
            0 <= i <= table@.len(),
            queue@ == leaf_queue(table@.take(i as int)),
            queue_weight(queue@) == total_weight(table@.take(i as int)),
        decreases table@.len() - i,
    {
        let entry = table[i];
        let ghost before = queue@;
        let leaf = Node { weight: entry.1, kind: NodeKind::Leaf { symbol: entry.0 } };
        queue.push(leaf);
        proof {
            assert(leaf == Node::leaf(table@[i as int].0, table@[i as int].1));
            assert(queue@ == before.push(leaf));
            assert(table@.take(i + 1).drop_last() =~= table@.take(i as int));
            assert(queue@.drop_last() =~= before);
            assert(queue@ =~= leaf_queue(table@.take(i + 1)));
        }
        i += 1;
    }
    assert(table@.take(i as int) =~= table@);
    while queue.len() > 1
        invariant
            queue@.len() >= 1,
            queue_weight(queue@) == total_weight(table@),
            total_weight(table@) <= u64::MAX,
            merge_rounds(queue@, queue@.len()) == huffman_tree(table@),
        decreases queue@.len(),
    {
        let ghost start = queue@;
        proof {
            lemma_first_lightest(start);
            lemma_queue_weight_remove(start, first_lightest(start));
        }
        let a = take_lightest(&mut queue);
        let ghost rest = queue@;
        proof {
            lemma_first_lightest(rest);
            lemma_queue_weight_remove(rest, first_lightest(rest));
        }
        let b = take_lightest(&mut queue);
        let ghost others = queue@;
        let joined = Node {
            weight: a.weight + b.weight,
            kind: NodeKind::Internal { left: Box::new(a), right: Box::new(b) },
        };
        queue.push(joined);
        proof {
            assert(joined == Node::join(a, b));
            assert(queue@ == merge_step(start));
            assert(queue@.drop_last() =~= others);
        }
    }
    let root = queue.remove(0);
    Ok(root)
}

/// Walks the tree under `node` from left to right and appends each leaf's
/// symbol with its code: `current_code`, then `0` for each step to the left
/// and `1` for each step to the right.
fn generate_codes(node: &Node, current_code: String, huffman_codes: &mut Vec<(char, String)>)
    ensures
        code_view(final(huffman_codes)@) == code_view(old(huffman_codes)@) + node.codes(
            current_code@,
        ),
        prefix_free(code_view(final(huffman_codes)@).skip(old(huffman_codes)@.len() as int)),
    decreases node,
{
    let ghost before = huffman_codes@;
    proof {
        lemma_codes_prefix_free(*node, current_code@);
        assert((code_view(before) + node.codes(current_code@)).skip(before.len() as int)
            =~= node.codes(current_code@));
    }
    match &node.kind {
        NodeKind::Leaf { symbol } => {
            huffman_codes.push((*symbol, current_code));
            assert(code_view(huffman_codes@) =~= code_view(before) + node.codes(current_code@));
        },
        NodeKind::Internal { left, right } => {
            let ghost path = current_code@;
            let left_code = current_code.clone().concat("0");
            let right_code = current_code.concat("1");
            proof {
                reveal_strlit("0");
                reveal_strlit("1");
                assert(left_code@ =~= path.push('0'));
                assert(right_code@ =~= path.push('1'));
            }
            generate_codes(left, left_code, huffman_codes);
            generate_codes(right, right_code, huffman_codes);
            assert(code_view(huffman_codes@) =~= code_view(before) + node.codes(path));
        },
    }
}

/// The code table of the tree with root `root`: one entry per leaf, from left
/// to right. A step to the left subtree writes `0`, a step to the right
/// subtree `1`; a root that is itself a leaf gets the code `0`.
pub fn extract(root: &Node) -> (codes: Vec<(char, String)>)
    ensures
        code_view(codes@) == root.code_table(),
        code_symbols(code_view(codes@)) == root.symbols(),
        prefix_free(code_view(codes@)),
        forall|i: int| 0 <= i < codes@.len() ==> (#[trigger] codes@[i]).1@.len() >= 1,
{
    proof {
        code_table_is_prefix_free(*root);
        code_table_covers_leaves(*root);
    }
    let mut codes: Vec<(char, String)> = Vec::new();
    match &root.kind {
        NodeKind::Leaf { symbol } => {
            proof {
                reveal_strlit("0");
            }
            codes.push((*symbol, String::from_str("0")));
            assert("0"@ =~= seq!['0']);
            assert(code_view(codes@) =~= root.code_table());
        },
        NodeKind::Internal { .. } => {
            generate_codes(root, String::new(), &mut codes);
            assert(code_view(codes@) =~= root.code_table());
        },
    }
    assert forall|i: int| 0 <= i < codes@.len() implies (#[trigger] codes@[i]).1@.len() >= 1 by {
        assert(code_view(codes@)[i].1 == codes@[i].1@);
    }
    codes
}

/// The Huffman code of a table of symbols and weights: the code table of the
/// tree that `build` makes of it.
///
/// The table is prefix-free and no code in it is empty; where no symbol
/// stands twice in `probs`, none stands twice in the code table. An empty
/// table has no code.
pub fn huffman(probs: Vec<(char, u64)>) -> (codes: Result<Vec<(char, String)>, SymbolMappingError>)
    requires
        total_weight(probs@) <= u64::MAX,
    ensures
        probs@.len() == 0 ==> codes == Err::<Vec<(char, String)>, SymbolMappingError>(
            SymbolMappingError::EmptyAlphabet,
        ),
        probs@.len() > 0 ==> {
            &&& codes is Ok
            &&& code_view(codes->Ok_0@) == huffman_tree(probs@).code_table()
            &&& prefix_free(code_view(codes->Ok_0@))
            &&& code_symbols(code_view(codes->Ok_0@)).to_multiset() == table_symbols(
                probs@,
            ).to_multiset()
            &&& forall|i: int|
                0 <= i < codes->Ok_0@.len() ==> (#[trigger] codes->Ok_0@[i]).1@.len() >= 1
            &&& distinct_symbols(probs@) ==> distinct_symbols(codes->Ok_0@)
        },
{
    match build(&probs) {
        Err(e) => Err(e),
        Ok(root) => {
            let codes = extract(&root);
            proof {
                if distinct_symbols(probs@) {
                    distinct_symbols_get_distinct_codes(probs@, codes@);
                }
            }
            Ok(codes)
        },
    }
}

/// Some entry of the table is for `symbol`.
pub open spec fn lists_symbol<V>(table: Seq<(char, V)>, symbol: char) -> bool {
    exists|i: int| 0 <= i < table.len() && (#[trigger] table[i]).0 == symbol
}

/// No two entries of the table are for one symbol.
pub open spec fn distinct_symbols<V>(table: Seq<(char, V)>) -> bool {
    forall|i: int, j: int|
        0 <= i < j < table.len() ==> (#[trigger] table[i]).0 != (#[trigger] table[j]).0
}

/// The table lists every symbol of the text.
pub open spec fn all_symbols_listed<V>(table: Seq<(char, V)>, text: Seq<char>) -> bool {
    forall|k: int| 0 <= k < text.len() ==> lists_symbol(table, #[trigger] text[k])
}

/// How often `symbol` stands in `text`.
pub open spec fn occurrences(text: Seq<char>, symbol: char) -> nat
    decreases text.len(),
{
    if text.len() == 0 {
        0
    } else {
        occurrences(text.drop_last(), symbol) + if text.last() == symbol {
            1nat
        } else {
            0nat
        }
    }
}

/// The symbols of `text`, each once, in the order in which they first appear.
pub open spec fn first_seen(text: Seq<char>) -> Seq<char>
    decreases text.len(),
{
    if text.len() == 0 {
        Seq::empty()
    } else {
        let before = first_seen(text.drop_last());
        if before.contains(text.last()) {
            before
        } else {
            before.push(text.last())
        }
    }
}

/// The sum of the counts of a table.
pub open spec fn total_count(table: Seq<(char, i32)>) -> int
    decreases table.len(),
{
    if table.len() == 0 {
        0
    } else {
        total_count(table.drop_last()) + table.last().1
    }
}

/// A symbol stands in a text at most as often as the text is long.
pub proof fn lemma_occurrences_bound(text: Seq<char>, symbol: char)
    ensures
        occurrences(text, symbol) <= text.len(),
    decreases text.len(),
{
    if text.len() > 0 {
        lemma_occurrences_bound(text.drop_last(), symbol);
    }
}

/// Replacing one entry changes the total by the difference of the two counts.
pub proof fn lemma_total_count_update(table: Seq<(char, i32)>, i: int, entry: (char, i32))
    requires
        0 <= i < table.len(),
    ensures
        total_count(table.update(i, entry)) == total_count(table) - table[i].1 + entry.1,
    decreases table.len(),
{
    let changed = table.update(i, entry);
    if i == table.len() - 1 {
        assert(changed.drop_last() =~= table.drop_last());
    } else {
        lemma_total_count_update(table.drop_last(), i, entry);
        assert(changed.drop_last() =~= table.drop_last().update(i, entry));
    }
}

/// Counts how often each symbol stands in `s`.
///
/// The table holds each symbol of `s` once, in the order in which the
/// symbols first appear, with the number of its occurrences; so the counts
/// add up to the length of `s`, and an empty text gives an empty table.
pub fn frequency(s: &str) -> (table: Vec<(char, i32)>)
    requires
        s@.len() <= i32::MAX,
    ensures
        table@.len() == first_seen(s@).len(),
        forall|i: int|
            0 <= i < table@.len() ==> {
                &&& (#[trigger] table@[i]).0 == first_seen(s@)[i]
                &&& table@[i].1 == occurrences(s@, table@[i].0)
                &&& table@[i].1 >= 1
            },
        distinct_symbols(table@),
        all_symbols_listed(table@, s@),
        total_count(table@) == s@.len(),
{
    broadcast use vstd::string::group_string_axioms;

    let mut table: Vec<(char, i32)> = Vec::new();
    for symbol in it: s.chars()
        invariant
            it.seq() == s@,
            s@.len() <= i32::MAX,
            table@.len() == first_seen(s@.take(it.index())).len(),
            forall|i: int|
                0 <= i < table@.len() ==> {
                    &&& (#[trigger] table@[i]).0 == first_seen(s@.take(it.index()))[i]
                    &&& table@[i].1 == occurrences(s@.take(it.index()), table@[i].0)
                    &&& table@[i].1 >= 1
                },
            distinct_symbols(table@),
            all_symbols_listed(table@, s@.take(it.index())),
            total_count(table@) == it.index(),
    {
        let ghost n = it.index();
        let ghost seen = s@.take(n);
        let ghost next = s@.take(n + 1);
        let ghost before = table@;
        proof {
            assert(next.drop_last() =~= seen);
            assert(next.last() == symbol);
        }
        let mut j: usize = 0;
        while j < table.len() && table[j].0 != symbol
            invariant
                0 <= j <= table@.len(),
                forall|i: int| 0 <= i < j ==> (#[trigger] table@[i]).0 != symbol,
            decreases table@.len() - j,
        {
            j += 1;
        }
        if j < table.len() {
            let count = table[j].1;
            proof {
                lemma_occurrences_bound(seen, symbol);
                lemma_total_count_update(before, j as int, (symbol, (count + 1) as i32));
                assert(first_seen(seen)[j as int] == symbol);
                assert(first_seen(seen).contains(symbol));
            }
            table.set(j, (symbol, count + 1));
            proof {
                lemma_one_more_listed(before, table@, seen, next, j as int);
            }
        } else {
            proof {
                assert(!first_seen(seen).contains(symbol)) by {
                    if first_seen(seen).contains(symbol) {
                        let i = choose|i: int|
                            0 <= i < first_seen(seen).len() && first_seen(seen)[i] == symbol;
                        assert(before[i].0 == symbol);
                    }
                }
                assert(occurrences(seen, symbol) == 0) by {
                    lemma_absent_symbol(seen, symbol, before);
                }
            }
            table.push((symbol, 1));
            proof {
                assert(table@.drop_last() =~= before);
                lemma_one_more_listed(before, table@, seen, next, table@.len() - 1);
            }
        }
    }
    assert(s@.take(s@.len() as int) =~= s@);
    table
}

/// A table that lists a text lists the text with one more symbol, once it
/// has grown or changed its counts and has an entry for that symbol at `place`.
proof fn lemma_one_more_listed(
    before: Seq<(char, i32)>,
    after: Seq<(char, i32)>,
    text: Seq<char>,
    longer: Seq<char>,
    place: int,
)
    requires
        all_symbols_listed(before, text),
        longer.len() == text.len() + 1,
        longer.drop_last() == text,
        before.len() <= after.len(),
        forall|i: int| 0 <= i < before.len() ==> (#[trigger] after[i]).0 == before[i].0,
        0 <= place < after.len(),
        after[place].0 == longer.last(),
    ensures
        all_symbols_listed(after, longer),
{
    assert forall|k: int| 0 <= k < longer.len() implies lists_symbol(after, #[trigger] longer[k]) by {
        if k < text.len() {
            assert(longer[k] == text[k]);
            assert(lists_symbol(before, text[k]));
            let i = choose|i: int| 0 <= i < before.len() && (#[trigger] before[i]).0 == text[k];
            assert(after[i].0 == text[k]);
        } else {
            assert(after[place].0 == longer[k]);
        }
    }
}

/// A symbol that no entry of a table names does not stand in the text, where
/// the table names every symbol of the text.
proof fn lemma_absent_symbol(text: Seq<char>, symbol: char, table: Seq<(char, i32)>)
    requires
        all_symbols_listed(table, text),
        forall|i: int| 0 <= i < table.len() ==> (#[trigger] table[i]).0 != symbol,
    ensures
        occurrences(text, symbol) == 0,
    decreases text.len(),
{
    if text.len() > 0 {
        let front = text.drop_last();
        assert forall|k: int| 0 <= k < front.len() implies lists_symbol(table, #[trigger] front[k]) by {
            assert(front[k] == text[k]);
        }
        lemma_absent_symbol(front, symbol, table);
        assert(lists_symbol(table, text[text.len() - 1]));
    }
}

/// Every symbol of table `a` has an entry in table `b`.
pub open spec fn all_listed<V, W>(a: Seq<(char, V)>, b: Seq<(char, W)>) -> bool {
    forall|k: int| 0 <= k < a.len() ==> lists_symbol(b, (#[trigger] a[k]).0)
}

/// Entry `i` of table `a` is the first whose symbol table `b` does not list.
pub open spec fn first_unlisted<V, W>(a: Seq<(char, V)>, b: Seq<(char, W)>, i: int) -> bool {
    &&& 0 <= i < a.len()
    &&& !lists_symbol(b, a[i].0)
    &&& forall|k: int| 0 <= k < i ==> lists_symbol(b, (#[trigger] a[k]).0)
}

/// Entry `i` is the first entry of the table for `symbol`.
pub open spec fn first_entry<V>(table: Seq<(char, V)>, symbol: char, i: int) -> bool {
    &&& 0 <= i < table.len()
    &&& table[i].0 == symbol
    &&& forall|k: int| 0 <= k < i ==> (#[trigger] table[k]).0 != symbol
}

/// The length of the code that the table gives `symbol`: that of its first
/// entry for it, and 0 where it has none.
pub open spec fn code_length(codes: Seq<(char, String)>, symbol: char) -> nat {
    if lists_symbol(codes, symbol) {
        codes[choose|i: int| first_entry(codes, symbol, i)].1@.len()
    } else {
        0
    }
}

/// The sum, over the entries of `f`, of the weight times the length of the
/// symbol's code. Its unit is that of the weights: where a weight is a
/// probability's numerator over some denominator, the sum over that
/// denominator is the expected length of a code word.
pub open spec fn weighted_length(f: Seq<(char, u64)>, codes: Seq<(char, String)>) -> nat
    decreases f.len(),
{
    if f.len() == 0 {
        0
    } else {
        weighted_length(f.drop_last(), codes) + f.last().1 as nat * code_length(
            codes,
            f.last().0,
        )
    }
}

/// What the cross-check of a weight table `f` against a code table `c` owes:
/// the first symbol of `f` without a code, else the first symbol of `c`
/// without a weight, else nothing.
pub open spec fn cross_check_outcome<V, W>(
    f: Seq<(char, V)>,
    c: Seq<(char, W)>,
    outcome: Option<SymbolMappingError>,
) -> bool {
    match outcome {
        None => all_listed(f, c) && all_listed(c, f),
        Some(SymbolMappingError::SymbolNotFoundInCodes(symbol)) => exists|i: int|
            first_unlisted(f, c, i) && f[i].0 == symbol,
        Some(SymbolMappingError::ExtraSymbolInCodes(symbol)) => all_listed(f, c) && exists|j: int|
            first_unlisted(c, f, j) && c[j].0 == symbol,
        Some(_) => false,
    }
}

/// The place of the first entry for `symbol`, if the table has one.
pub fn find_symbol<V>(table: &Vec<(char, V)>, symbol: char) -> (place: Option<usize>)
    ensures
        match place {
            Some(i) => first_entry(table@, symbol, i as int),
            None => !lists_symbol(table@, symbol),
        },
{
    let mut i: usize = 0;
    while i < table.len()
        invariant
            0 <= i <= table@.len(),
            forall|k: int| 0 <= k < i ==> (#[trigger] table@[k]).0 != symbol,
        decreases table@.len() - i,
    {
        if table[i].0 == symbol {
            return Some(i);
        }
        i += 1;
    }
    None
}

/// The first entry of `a`, if any, whose symbol `b` does not list.
fn find_unlisted<V, W>(a: &Vec<(char, V)>, b: &Vec<(char, W)>) -> (place: Option<usize>)
    ensures
        match place {
            Some(i) => first_unlisted(a@, b@, i as int),
            None => all_listed(a@, b@),
        },
{
    let mut i: usize = 0;
    while i < a.len()
        invariant
            0 <= i <= a@.len(),
            forall|k: int| 0 <= k < i ==> lists_symbol(b@, (#[trigger] a@[k]).0),
        decreases a@.len() - i,
    {
        if find_symbol(b, a[i].0).is_none() {
            return Some(i);
        }
        i += 1;
    }
    None
}

/// Holds a weight table against a code table, in both directions.
///
/// Fails with `SymbolNotFoundInCodes` for the first symbol of `f` that `c`
/// has no code for; where there is none, with `ExtraSymbolInCodes` for the
/// first symbol of `c` that `f` does not know; and succeeds where the two
/// tables speak of the same symbols.
pub fn cross_check<V, W>(f: &Vec<(char, V)>, c: &Vec<(char, W)>) -> (outcome: Result<
    (),
    SymbolMappingError,
>)
    ensures
        cross_check_outcome(f@, c@, outcome.err()),
{
    match find_unlisted(f, c) {
        Some(i) => Err(SymbolMappingError::SymbolNotFoundInCodes(f[i].0)),
        None => match find_unlisted(c, f) {
            Some(j) => Err(SymbolMappingError::ExtraSymbolInCodes(c[j].0)),
            None => Ok(()),
        },
    }
}

/// The weighted length of a code: the sum over the symbols of `f` of the
/// weight times the length of the symbol's code in `c`, counted in
/// characters. The unit is the caller's: with weights in thousandths the sum
/// is the expected length of a code word in thousandths of a bit, and only
/// where the weights are counts is it the expected length times their total.
///
/// The two tables must speak of the same symbols: the errors are those of
/// `cross_check`.
pub fn expected(f: &Vec<(char, u64)>, c: &Vec<(char, String)>) -> (total: Result<
    u128,
    SymbolMappingError,
>)
    requires
        total_weight(f@) <= u64::MAX,
    ensures
        cross_check_outcome(f@, c@, total.err()),
        total is Ok ==> total->Ok_0 == weighted_length(f@, c@),
{
    match cross_check(f, c) {
        Err(e) => Err(e),
        Ok(()) => {
            let mut total: u128 = 0;
            let mut i: usize = 0;
            while i < f.len()
                invariant
                    0 <= i <= f@.len(),
                    all_listed(f@, c@),
                    total_weight(f@) <= u64::MAX,
                    total == weighted_length(f@.take(i as int), c@),
                    total <= total_weight(f@.take(i as int)) * usize::MAX,
                decreases f@.len() - i,
            {
                let symbol = f[i].0;
                let weight = f[i].1;
                let place = find_symbol(c, symbol);
                proof {
                    assert(lists_symbol(c@, f@[i as int].0));
                    assert(f@.take(i + 1).drop_last() =~= f@.take(i as int));
                    lemma_total_weight_grows(f@, i + 1);
                }
                match place {
                    Some(j) => {
                        let length = c[j].1.as_str().unicode_len();
                        proof {
                            lemma_first_entry_is_one(c@, symbol, j as int);
                            assert(code_length(c@, symbol) == length);
                            let before = total_weight(f@.take(i as int));
                            let after = total_weight(f@.take(i + 1));
                            assert(after == before + weight);
                            assert(total + weight * length <= after * usize::MAX && after
                                * usize::MAX <= u64::MAX * u64::MAX) by (nonlinear_arith)
                                requires
                                    total <= before * usize::MAX,
                                    after == before + weight,
                                    0 <= length <= usize::MAX,
                                    0 <= weight,
                                    0 <= before,
                                    after <= u64::MAX,
                                    usize::MAX <= u64::MAX,
                            ;
                            assert(u64::MAX * u64::MAX < u128::MAX) by (nonlinear_arith);
                            assert(0 <= weight * length <= total + weight * length)
                                by (nonlinear_arith)
                                requires
                                    0 <= weight,
                                    0 <= length,
                                    0 <= total,
                            ;
                        }
                        total = total + (weight as u128) * (length as u128);
                    },
                    None => {},
                }
                i += 1;
            }
            assert(f@.take(i as int) =~= f@);
            Ok(total)
        },
    }
}

/// A table has at most one first entry for a symbol.
pub proof fn lemma_first_entry_is_one<V>(table: Seq<(char, V)>, symbol: char, i: int)
    requires
        first_entry(table, symbol, i),
    ensures
        lists_symbol(table, symbol),
        (choose|k: int| first_entry(table, symbol, k)) == i,
{
    let k = choose|k: int| first_entry(table, symbol, k);
    assert(first_entry(table, symbol, k));
    if k < i {
        assert(table[k].0 != symbol);
    }
    if i < k {
        assert(table[i].0 != symbol);
    }
}

/// The sum of the weights of a table, where it fits in 64 bits.
pub fn checked_total(table: &Vec<(char, u64)>) -> (total: Option<u64>)
    ensures
        total_weight(table@) <= u64::MAX ==> total == Some(total_weight(table@) as u64),
        total_weight(table@) > u64::MAX ==> total.is_none(),
{
    let mut total: u64 = 0;
    let mut i: usize = 0;
    while i < table.len()
        invariant
            0 <= i <= table@.len(),
            total == total_weight(table@.take(i as int)),
        decreases table@.len() - i,
    {
        proof {
            assert(table@.take(i + 1).drop_last() =~= table@.take(i as int));
            lemma_total_weight_grows(table@, i + 1);
        }
        match total.checked_add(table[i].1) {
            Some(sum) => {
                total = sum;
            },
            None => {
                return None;
            },
        }
        i += 1;
    }
    assert(table@.take(i as int) =~= table@);
    Some(total)
}

/// The first entries of a table weigh no more than the whole table.
pub proof fn lemma_total_weight_grows(table: Seq<(char, u64)>, n: int)
    requires
        0 <= n <= table.len(),
    ensures
        total_weight(table.take(n)) <= total_weight(table),
    decreases table.len(),
{
    if n == table.len() {
        assert(table.take(n) =~= table);
    } else {
        lemma_total_weight_grows(table.drop_last(), n);
        assert(table.drop_last().take(n) =~= table.take(n));
    }
}

/// The sum of non-negative counts is at least each of them, and zero where
/// all of them are.
pub proof fn lemma_total_count_bounds(f: Seq<(char, i32)>)
    requires
        forall|i: int| 0 <= i < f.len() ==> (#[trigger] f[i]).1 >= 0,
    ensures
        forall|i: int| 0 <= i < f.len() ==> 0 <= (#[trigger] f[i]).1 <= total_count(f),
        total_count(f) >= 0,
        (forall|i: int| 0 <= i < f.len() ==> (#[trigger] f[i]).1 == 0) ==> total_count(f) == 0,
    decreases f.len(),
{
    if f.len() > 0 {
        let front = f.drop_last();
        assert forall|i: int| 0 <= i < front.len() implies (#[trigger] front[i]).1 >= 0 by {
            assert(front[i] == f[i]);
        }
        lemma_total_count_bounds(front);
        assert forall|i: int| 0 <= i < f.len() implies 0 <= (#[trigger] f[i]).1 <= total_count(
            f,
        ) by {
            if i < front.len() {
                assert(front[i] == f[i]);
            }
        }
        if forall|i: int| 0 <= i < f.len() ==> (#[trigger] f[i]).1 == 0 {
            assert forall|i: int| 0 <= i < front.len() implies (#[trigger] front[i]).1 == 0 by {
                assert(front[i] == f[i]);
            }
        }
    }
}

/// Whether the counts of a table add up to more than zero.
fn has_count(f: &Vec<(char, i32)>) -> (found: bool)
    requires
        forall|i: int| 0 <= i < f@.len() ==> (#[trigger] f@[i]).1 >= 0,
    ensures
        found == (total_count(f@) > 0),
{
    proof {
        lemma_total_count_bounds(f@);
    }
    let mut i: usize = 0;
    while i < f.len()
        invariant
            0 <= i <= f@.len(),
            forall|k: int| 0 <= k < f@.len() ==> 0 <= (#[trigger] f@[k]).1 <= total_count(f@),
            forall|k: int| 0 <= k < i ==> (#[trigger] f@[k]).1 == 0,
        decreases f@.len() - i,
    {
        if f[i].1 > 0 {
            return true;
        }
        i += 1;
    }
    false
}

/// The counts of a table as weights: the probability of a symbol is its
/// weight over the total weight, which is the total count, so the
/// probabilities add up to one. A table without an entry, or whose counts
/// are all zero, has no probabilities: it gives an empty table.
pub fn freq_to_prob(f: &Vec<(char, i32)>) -> (probs: Vec<(char, u64)>)
    requires
        forall|i: int| 0 <= i < f@.len() ==> (#[trigger] f@[i]).1 >= 0,
    ensures
        total_count(f@) <= 0 ==> probs@.len() == 0,
        total_count(f@) > 0 ==> {
            &&& probs@.len() == f@.len()
            &&& forall|i: int|
                0 <= i < f@.len() ==> (#[trigger] probs@[i]).0 == f@[i].0 && probs@[i].1
                    == f@[i].1
            &&& total_weight(probs@) == total_count(f@)
        },
        distinct_symbols(f@) ==> distinct_symbols(probs@),
{
    let mut probs: Vec<(char, u64)> = Vec::new();
    if !has_count(f) {
        return probs;
    }
    let mut i: usize = 0;
    while i < f.len()
        invariant
            0 <= i <= f@.len(),
            probs@.len() == i,
            forall|k: int| 0 <= k < f@.len() ==> (#[trigger] f@[k]).1 >= 0,
            forall|k: int|
                0 <= k < i ==> (#[trigger] probs@[k]).0 == f@[k].0 && probs@[k].1 == f@[k].1,
            total_weight(probs@) == total_count(f@.take(i as int)),
        decreases f@.len() - i,
    {
        let ghost before = probs@;
        let entry = f[i];
        assert(f@[i as int].1 >= 0);
        probs.push((entry.0, entry.1 as u64));
        proof {
            assert(probs@.drop_last() =~= before);
            assert(f@.take(i + 1).drop_last() =~= f@.take(i as int));
        }
        i += 1;
    }
    assert(f@.take(i as int) =~= f@);
    probs
}

} // verus!

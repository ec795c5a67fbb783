//! Writing a text with a code table, and reading it back.

use crate::errors::{symbol_text, SymbolMappingError};
use crate::nodes::{is_prefix, prefix_free};
use crate::utils::{
    all_symbols_listed, code_view, find_symbol, first_entry, lemma_first_entry_is_one,
    lists_symbol,
};
use vstd::prelude::*;
use vstd::string::StringExecFns;

verus! {

/// The code that the table gives `symbol`: that of its first entry for it.
pub open spec fn code_of(codes: Seq<(char, String)>, symbol: char) -> Seq<char> {
    codes[choose|i: int| first_entry(codes, symbol, i)].1@
}

/// The codes of the symbols of a text, one after the other.
pub open spec fn encoding(codes: Seq<(char, String)>, text: Seq<char>) -> Seq<char>
    decreases text.len(),
{
    if text.len() == 0 {
        Seq::empty()
    } else {
        code_of(codes, text[0]) + encoding(codes, text.drop_first())
    }
}

/// Some entry of the table has the code `word`.
pub open spec fn has_code(codes: Seq<(char, String)>, word: Seq<char>) -> bool {
    exists|j: int| 0 <= j < codes.len() && (#[trigger] codes[j]).1@ == word
}

/// Entry `j` is the first entry of the table with the code `word`.
pub open spec fn first_with_code(codes: Seq<(char, String)>, word: Seq<char>, j: int) -> bool {
    &&& 0 <= j < codes.len()
    &&& codes[j].1@ == word
    &&& forall|k: int| 0 <= k < j ==> (#[trigger] codes[k]).1@ != word
}

/// The symbol of the first entry with the code `word`.
pub open spec fn symbol_of(codes: Seq<(char, String)>, word: Seq<char>) -> char {
    codes[choose|j: int| first_with_code(codes, word, j)].0
}

/// `front` before the text in `rest`, where there is one.
pub open spec fn prepend(front: Seq<char>, rest: Option<Seq<char>>) -> Option<Seq<char>> {
    match rest {
        Some(text) => Some(front + text),
        None => None,
    }
}

/// The text that `bits` stand for, read from left to right after the bits
/// in `pending`: as soon as the bits read are a code of the table, its symbol
/// is written and reading starts afresh. Bits left over at the end that are
/// no code stand for no text.
pub open spec fn decoding(codes: Seq<(char, String)>, bits: Seq<char>, pending: Seq<char>) -> Option<
    Seq<char>,
>
    decreases bits.len(),
{
    if bits.len() == 0 {
        if pending.len() == 0 {
            Some(Seq::empty())
        } else {
            None
        }
    } else {
        let word = pending.push(bits[0]);
        if has_code(codes, word) {
            prepend(seq![symbol_of(codes, word)], decoding(codes, bits.drop_first(), Seq::empty()))
        } else {
            decoding(codes, bits.drop_first(), word)
        }
    }
}

/// The place of the first entry with the code `word`, if the table has one.
fn find_code(codes: &Vec<(char, String)>, word: &String) -> (place: Option<usize>)
    ensures
        match place {
            Some(j) => first_with_code(codes@, word@, j as int),
            None => !has_code(codes@, word@),
        },
{
    let mut j: usize = 0;
    while j < codes.len()
        invariant
            0 <= j <= codes@.len(),
            forall|k: int| 0 <= k < j ==> (#[trigger] codes@[k]).1@ != word@,
        decreases codes@.len() - j,
    {
        if codes[j].1 == *word {
            return Some(j);
        }
        j += 1;
    }
    None
}

/// Writes `text` with the codes of the table, one code after the other.
///
/// Fails with `UnknownSymbolInString` where the table does not list a symbol
/// of the text.
pub fn encoder(text: &str, codes: &Vec<(char, String)>) -> (bits: Result<String, SymbolMappingError>)
    ensures
        all_symbols_listed(codes@, text@) ==> bits is Ok && bits->Ok_0@ == encoding(
            codes@,
            text@,
        ),
        !all_symbols_listed(codes@, text@) ==> bits == Err::<String, SymbolMappingError>(
            SymbolMappingError::UnknownSymbolInString,
        ),
{
    broadcast use vstd::string::group_string_axioms;

    let mut out = String::new();
    assert(text@.skip(0) =~= text@);
    for symbol in it: text.chars()
        invariant
            it.seq() == text@,
            forall|k: int| 0 <= k < it.index() ==> lists_symbol(codes@, #[trigger] text@[k]),
            encoding(codes@, text@) == out@ + encoding(codes@, text@.skip(it.index())),
    {
        let ghost n = it.index();
        let ghost before = out@;
        match find_symbol(codes, symbol) {
            None => {
                assert(!lists_symbol(codes@, text@[n]));
                return Err(SymbolMappingError::UnknownSymbolInString);
            },
            Some(j) => {
                out.append(codes[j].1.as_str());
                proof {
                    lemma_first_entry_is_one(codes@, symbol, j as int);
                    assert(text@.skip(n)[0] == symbol);
                    assert(text@.skip(n).drop_first() =~= text@.skip(n + 1));
                    assert(out@ + encoding(codes@, text@.skip(n + 1)) =~= before + encoding(
                        codes@,
                        text@.skip(n),
                    ));
                }
            },
        }
    }
    assert(text@.skip(text@.len() as int) =~= Seq::<char>::empty());
    assert(out@ + Seq::<char>::empty() =~= out@);
    Ok(out)
}

/// Reads `bits` with the codes of the table, from left to right: as soon as
/// the bits read are a code, its symbol is written.
///
/// Fails with `UnknownSymbolInString` where bits are left over at the end.
pub fn decoder(bits: &str, codes: &Vec<(char, String)>) -> (text: Result<String, SymbolMappingError>)
    ensures
        match decoding(codes@, bits@, Seq::empty()) {
            Some(symbols) => text is Ok && text->Ok_0@ == symbols,
            None => text == Err::<String, SymbolMappingError>(
                SymbolMappingError::UnknownSymbolInString,
            ),
        },
{
    broadcast use vstd::string::group_string_axioms;

    let mut out = String::new();
    let mut pending = String::new();
    let ghost whole = decoding(codes@, bits@, Seq::empty());
    proof {
        assert(bits@.skip(0) =~= bits@);
        lemma_prepend_nothing(whole);
    }
    for bit in it: bits.chars()
        invariant
            it.seq() == bits@,
            whole == decoding(codes@, bits@, Seq::empty()),
            whole == prepend(out@, decoding(codes@, bits@.skip(it.index()), pending@)),
    {
        let ghost n = it.index();
        let ghost written = out@;
        let ghost word = pending@.push(bit);
        proof {
            assert(bits@.skip(n)[0] == bit);
            assert(bits@.skip(n).drop_first() =~= bits@.skip(n + 1));
        }
        pending.append(symbol_text(bit).as_str());
        assert(pending@ =~= word);
        match find_code(codes, &pending) {
            Some(j) => {
                proof {
                    lemma_first_with_code_is_one(codes@, word, j as int);
                    lemma_prepend_twice(
                        written,
                        seq![codes@[j as int].0],
                        decoding(codes@, bits@.skip(n + 1), Seq::empty()),
                    );
                }
                out.append(symbol_text(codes[j].0).as_str());
                pending = String::new();
            },
            None => {},
        }
    }
    assert(bits@.skip(bits@.len() as int).len() == 0);
    if pending.as_str().is_empty() {
        assert(out@ + Seq::<char>::empty() =~= out@);
        Ok(out)
    } else {
        Err(SymbolMappingError::UnknownSymbolInString)
    }
}

proof fn lemma_prepend_nothing(rest: Option<Seq<char>>)
    ensures
        prepend(Seq::empty(), rest) == rest,
{
    if let Some(text) = rest {
        assert(Seq::<char>::empty() + text =~= text);
    }
}

proof fn lemma_prepend_twice(first: Seq<char>, second: Seq<char>, rest: Option<Seq<char>>)
    ensures
        prepend(first, prepend(second, rest)) == prepend(first + second, rest),
{
    if let Some(text) = rest {
        assert(first + (second + text) =~= (first + second) + text);
    }
}

/// A table has at most one first entry with a given code.
proof fn lemma_first_with_code_is_one(codes: Seq<(char, String)>, word: Seq<char>, j: int)
    requires
        first_with_code(codes, word, j),
    ensures
        has_code(codes, word),
        (choose|k: int| first_with_code(codes, word, k)) == j,
{
    let k = choose|k: int| first_with_code(codes, word, k);
    assert(first_with_code(codes, word, k));
    if k < j {
        assert(codes[k].1@ != word);
    }
    if j < k {
        assert(codes[j].1@ != word);
    }
}

/// Reading the code of a symbol, from its bit `k` on, writes that symbol and
/// goes on with what follows the code.
proof fn lemma_decoding_reads_a_code(
    codes: Seq<(char, String)>,
    symbol: char,
    rest: Seq<char>,
    k: int,
)
    requires
        prefix_free(code_view(codes)),
        lists_symbol(codes, symbol),
        0 <= k < code_of(codes, symbol).len(),
    ensures
        decoding(codes, code_of(codes, symbol).skip(k) + rest, code_of(codes, symbol).take(k))
            == prepend(seq![symbol], decoding(codes, rest, Seq::empty())),
    decreases code_of(codes, symbol).len() - k,
{
    let code = code_of(codes, symbol);
    let home = choose|i: int| first_entry(codes, symbol, i);
    assert(first_entry(codes, symbol, home)) by {
        let i = choose|i: int| 0 <= i < codes.len() && (#[trigger] codes[i]).0 == symbol;
        lemma_some_first_entry(codes, symbol, i);
    }
    let bits = code.skip(k) + rest;
    let word = code.take(k).push(bits[0]);
    assert(bits[0] == code[k]);
    assert(word =~= code.take(k + 1));
    assert(bits.drop_first() =~= code.skip(k + 1) + rest);
    assert(code_view(codes)[home].1 == code);
    if k + 1 < code.len() {
        if has_code(codes, word) {
            let j = choose|j: int| 0 <= j < codes.len() && (#[trigger] codes[j]).1@ == word;
            assert(code_view(codes)[j].1 == word);
            assert(is_prefix(word, code));
            assert(j != home);
        }
        lemma_decoding_reads_a_code(codes, symbol, rest, k + 1);
    } else {
        assert(word =~= code);
        assert(has_code(codes, word));
        let j = choose|j: int| first_with_code(codes, word, j);
        assert(first_with_code(codes, word, j)) by {
            lemma_some_first_with_code(codes, word, home);
        }
        assert(code_view(codes)[j].1 == code);
        assert(is_prefix(code, code));
        assert(j == home);
        assert(code.skip(k + 1) + rest =~= rest);
    }
}

proof fn lemma_some_first_entry(codes: Seq<(char, String)>, symbol: char, i: int)
    requires
        0 <= i < codes.len(),
        codes[i].0 == symbol,
    ensures
        exists|j: int| first_entry(codes, symbol, j),
    decreases i,
{
    if exists|k: int| 0 <= k < i && (#[trigger] codes[k]).0 == symbol {
        let k = choose|k: int| 0 <= k < i && (#[trigger] codes[k]).0 == symbol;
        lemma_some_first_entry(codes, symbol, k);
    } else {
        assert(first_entry(codes, symbol, i));
    }
}

proof fn lemma_some_first_with_code(codes: Seq<(char, String)>, word: Seq<char>, i: int)
    requires
        0 <= i < codes.len(),
        codes[i].1@ == word,
    ensures
        exists|j: int| first_with_code(codes, word, j),
    decreases i,
{
    if exists|k: int| 0 <= k < i && (#[trigger] codes[k]).1@ == word {
        let k = choose|k: int| 0 <= k < i && (#[trigger] codes[k]).1@ == word;
        lemma_some_first_with_code(codes, word, k);
    } else {
        assert(first_with_code(codes, word, i));
    }
}

/// With a prefix-free table without empty codes, decoding the encoding of a
/// text gives the text back, for every text whose symbols the table lists.
pub proof fn decoding_recovers_the_text(codes: Seq<(char, String)>, text: Seq<char>)
    requires
        prefix_free(code_view(codes)),
        forall|i: int| 0 <= i < codes.len() ==> (#[trigger] codes[i]).1@.len() >= 1,
        all_symbols_listed(codes, text),
    ensures
        decoding(codes, encoding(codes, text), Seq::empty()) == Some(text),
    decreases text.len(),
{
    if text.len() > 0 {
        let symbol = text[0];
        let tail = text.drop_first();
        let code = code_of(codes, symbol);
        let rest = encoding(codes, tail);
        assert(all_symbols_listed(codes, tail)) by {
            assert forall|k: int| 0 <= k < tail.len() implies lists_symbol(
                codes,
                #[trigger] tail[k],
            ) by {
                assert(tail[k] == text[k + 1]);
            }
        }
        decoding_recovers_the_text(codes, tail);
        assert(lists_symbol(codes, symbol));
        let i = choose|i: int| 0 <= i < codes.len() && (#[trigger] codes[i]).0 == symbol;
        lemma_some_first_entry(codes, symbol, i);
        let home = choose|j: int| first_entry(codes, symbol, j);
        assert(codes[home].1@.len() >= 1);
        lemma_decoding_reads_a_code(codes, symbol, rest, 0);
        assert(code.skip(0) =~= code);
        assert(code.take(0) =~= Seq::<char>::empty());
        assert(seq![symbol] + tail =~= text);
    }
}

} // verus!

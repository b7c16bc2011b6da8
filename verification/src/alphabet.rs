use vstd::prelude::*;

verus! {

/// The ASCII uppercase letters, in order.
pub open spec fn upper_chars() -> Seq<char> {
    "ABCDEFGHIJKLMNOPQRSTUVWXYZ"@
}

/// The ASCII lowercase letters, in order.
pub open spec fn lower_chars() -> Seq<char> {
    "abcdefghijklmnopqrstuvwxyz"@
}

/// The ASCII digits, in order.
pub open spec fn digit_chars() -> Seq<char> {
    "0123456789"@
}

/// The ASCII symbol and punctuation characters, in code-point order: space
/// through `/`, `:` through `@`, `[` through the backquote, `{` through `~`.
pub open spec fn symbol_chars() -> Seq<char> {
    " !\"#$%&'()*+,-./:;<=>?@[\\]^_`{|}~"@
}

/// The alphabet the builder owes: the enabled categories appended in the
/// fixed order upper, lower, digits, symbols.
pub open spec fn alphabet_spec(
    no_upper: bool,
    no_lower: bool,
    no_numbers: bool,
    no_symbols: bool,
) -> Seq<char> {
    (if !no_upper {
        upper_chars()
    } else {
        Seq::<char>::empty()
    }) + (if !no_lower {
        lower_chars()
    } else {
        Seq::<char>::empty()
    }) + (if !no_numbers {
        digit_chars()
    } else {
        Seq::<char>::empty()
    }) + (if !no_symbols {
        symbol_chars()
    } else {
        Seq::<char>::empty()
    })
}

/// Relies on char_iter::new: an iterator over the characters from `lo` to
/// `hi` inclusive, in code-point order. It panics when `lo > hi` and skips
/// the surrogate range, so both are kept out by the precondition.
#[verifier::external_body]
fn char_range(lo: char, hi: char) -> (r: Vec<char>)
    requires
        (lo as int) <= (hi as int),
        (hi as int) < 0xD800,
    ensures
        r@.len() == (hi as int) - (lo as int) + 1,
        forall|k: int| 0 <= k < r@.len() ==> (#[trigger] r@[k]) as int == (lo as int) + k,
{
    char_iter::new(lo, hi).collect()
}

proof fn lemma_append_range_distinct(prev: Seq<char>, added: Seq<char>, lo: int)
    requires
        prev.no_duplicates(),
        forall|k: int| 0 <= k < added.len() ==> ((#[trigger] added[k]) as int) == lo + k,
        forall|k: int|
            0 <= k < prev.len() ==> (((#[trigger] prev[k]) as int) < lo || ((prev[k]) as int) >= lo
                + added.len()),
    ensures
        (prev + added).no_duplicates(),
{
    let combined = prev + added;
    assert forall|p: int, q: int|
        0 <= p < combined.len() && 0 <= q < combined.len() && p != q implies combined[p]
        != combined[q] by {
        if p >= prev.len() && q >= prev.len() {
            assert((combined[p] as int) == lo + (p - prev.len()));
            assert((combined[q] as int) == lo + (q - prev.len()));
        } else if p < prev.len() && q >= prev.len() {
            assert((combined[q] as int) >= lo && (combined[q] as int) < lo + added.len());
        } else if p >= prev.len() && q < prev.len() {
            assert((combined[p] as int) >= lo && (combined[p] as int) < lo + added.len());
        }
    }
}

/// Builds the combination alphabet from the four category exclusion flags:
/// each enabled category's characters are appended in the fixed category
/// order. No character appears twice: the category ranges are disjoint.
pub fn build_alphabet(
    no_upper: bool,
    no_lower: bool,
    no_numbers: bool,
    no_symbols: bool,
) -> (alphabet: Vec<char>)
    ensures
        alphabet@ == alphabet_spec(no_upper, no_lower, no_numbers, no_symbols),
        alphabet@.no_duplicates(),
{
    let mut alphabet: Vec<char> = Vec::new();
    if !no_upper {
        let mut r = char_range('A', 'Z');
        proof {
            reveal_strlit("ABCDEFGHIJKLMNOPQRSTUVWXYZ");
            assert(r@ =~= upper_chars());
            lemma_append_range_distinct(alphabet@, r@, 65);
        }
        alphabet.append(&mut r);
    }
    proof {
        assert(forall|k: int|
            0 <= k < alphabet@.len() ==> 65 <= ((#[trigger] alphabet@[k]) as int) <= 90);
    }
    if !no_lower {
        let mut r = char_range('a', 'z');
        proof {
            reveal_strlit("abcdefghijklmnopqrstuvwxyz");
            assert(r@ =~= lower_chars());
            lemma_append_range_distinct(alphabet@, r@, 97);
        }
        alphabet.append(&mut r);
    }
    proof {
        assert(forall|k: int|
            0 <= k < alphabet@.len() ==> {
                let c = ((#[trigger] alphabet@[k]) as int);
                65 <= c <= 90 || 97 <= c <= 122
            });
    }
    if !no_numbers {
        let mut r = char_range('0', '9');
        proof {
            reveal_strlit("0123456789");
            assert(r@ =~= digit_chars());
            lemma_append_range_distinct(alphabet@, r@, 48);
        }
        alphabet.append(&mut r);
    }
    proof {
        assert(forall|k: int|
            0 <= k < alphabet@.len() ==> {
                let c = ((#[trigger] alphabet@[k]) as int);
                48 <= c <= 90 || 97 <= c <= 122
            });
    }
    if !no_symbols {
        let ghost before_symbols = alphabet@;
        let mut r1 = char_range(' ', '/');
        let mut r2 = char_range(':', '@');
        let mut r3 = char_range('[', '`');
        let mut r4 = char_range('{', '~');
        proof {
            reveal_strlit(" !\"#$%&'()*+,-./:;<=>?@[\\]^_`{|}~");
            assert(r1@ + r2@ + r3@ + r4@ =~= symbol_chars());
            lemma_append_range_distinct(alphabet@, r1@, 32);
        }
        alphabet.append(&mut r1);
        proof {
            assert(forall|k: int|
                0 <= k < alphabet@.len() ==> {
                    let c = ((#[trigger] alphabet@[k]) as int);
                    32 <= c <= 57 || 58 <= c <= 90 || 97 <= c <= 122
                });
            lemma_append_range_distinct(alphabet@, r2@, 58);
        }
        alphabet.append(&mut r2);
        proof {
            assert(forall|k: int|
                0 <= k < alphabet@.len() ==> {
                    let c = ((#[trigger] alphabet@[k]) as int);
                    32 <= c <= 90 || 97 <= c <= 122
                });
            lemma_append_range_distinct(alphabet@, r3@, 91);
        }
        alphabet.append(&mut r3);
        proof {
            assert(forall|k: int|
                0 <= k < alphabet@.len() ==> {
                    let c = ((#[trigger] alphabet@[k]) as int);
                    32 <= c <= 96 || 97 <= c <= 122
                });
            lemma_append_range_distinct(alphabet@, r4@, 123);
        }
        alphabet.append(&mut r4);
        proof {
            assert(alphabet@ =~= before_symbols + symbol_chars());
        }
    }
    proof {
        assert(alphabet@ =~= alphabet_spec(no_upper, no_lower, no_numbers, no_symbols));
    }
    alphabet
}

} // verus!

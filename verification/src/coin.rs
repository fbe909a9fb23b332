//! Coin symbols and sets of them.

use vstd::prelude::*;
use vstd::string::*;

use crate::text::same_text;

verus! {

/// Whether a symbol names a spot pair: `@` names by index, and the one pair with a name.
pub open spec fn is_spot_symbol(s: Seq<char>) -> bool {
    (s.len() > 0 && s[0] == '@') || s == "PURR/USDC"@
}

/// Whether a symbol names an outcome market.
pub open spec fn is_outcome_symbol(s: Seq<char>) -> bool {
    s.len() > 0 && s[0] == '#'
}

/// Whether a symbol is left out: spot pairs are, when spot is ignored.
pub open spec fn is_ignored(s: Seq<char>, ignore_spot: bool) -> bool {
    ignore_spot && is_spot_symbol(s)
}

/// A coin symbol.
#[derive(Debug, PartialEq, Eq)]
pub struct Coin(pub String);

impl View for Coin {
    type V = Seq<char>;

    open spec fn view(&self) -> Seq<char> {
        self.0@
    }
}

impl Clone for Coin {
    fn clone(&self) -> (r: Self)
        ensures
            r == *self,
    {
        Coin(self.0.clone())
    }
}

impl Coin {
    pub fn new(symbol: &str) -> (r: Coin)
        ensures
            r@ == symbol@,
    {
        Coin(symbol.to_owned())
    }

    /// The symbol as text.
    pub fn value(&self) -> (r: String)
        ensures
            r@ == self@,
    {
        self.0.clone()
    }

    pub fn is_spot(&self) -> (r: bool)
        ensures
            r == is_spot_symbol(self@),
    {
        spot_symbol(self.0.as_str())
    }
}

fn begins_with(s: &str, c: char) -> (r: bool)
    ensures
        r == (s@.len() > 0 && s@[0] == c),
{
    if s.is_empty() {
        false
    } else {
        s.get_char(0) == c
    }
}

/// Whether a symbol names a spot pair.
pub fn spot_symbol(s: &str) -> (r: bool)
    ensures
        r == is_spot_symbol(s@),
{
    begins_with(s, '@') || same_text(s, "PURR/USDC")
}

/// Whether a symbol names an outcome market.
pub fn outcome_symbol(s: &str) -> (r: bool)
    ensures
        r == is_outcome_symbol(s@),
{
    begins_with(s, '#')
}

/// The symbols of a list.
pub open spec fn symbols(s: Seq<String>) -> Set<Seq<char>> {
    Set::new(|k: Seq<char>| exists|i: int| 0 <= i < s.len() && #[trigger] s[i]@ == k)
}

/// Whether a list holds a symbol.
pub fn contains_symbol(v: &Vec<String>, s: &str) -> (r: bool)
    ensures
        r == symbols(v@).contains(s@),
{
    let wanted = s.to_owned();
    let mut i: usize = 0;
    while i < v.len()
        invariant
            i <= v@.len(),
            wanted@ == s@,
            forall|j: int| 0 <= j < i ==> #[trigger] v@[j]@ != s@,
        decreases v@.len() - i,
    {
        if v[i] == wanted {
            assert(v@[i as int]@ == s@);
            return true;
        }
        i = i + 1;
    }
    false
}

/// A symbol names a spot pair exactly if it begins with `@` or is that of the one pair with a name, and
/// an outcome market exactly if it begins with `#`. What is ignored are the spot pairs, if spot is, and
/// nothing else.
pub proof fn law_kinds_of_symbols(s: Seq<char>, ignore_spot: bool)
    ensures
        is_spot_symbol(s) <==> s.take(1) == seq!['@'] && s.len() > 0 || s == "PURR/USDC"@,
        is_outcome_symbol(s) <==> s.take(1) == seq!['#'] && s.len() > 0,
        is_ignored(s, ignore_spot) <==> ignore_spot && is_spot_symbol(s),
{
    if s.len() > 0 {
        assert(s.take(1) =~= seq![s[0]]);
        assert(seq![s[0]][0] == s[0]);
    }
}

/// A list holds the symbols of its texts and no other.
pub proof fn law_symbols_of_a_list(s: Seq<String>, more: String, k: Seq<char>)
    ensures
        !symbols(Seq::<String>::empty()).contains(k),
        symbols(s.push(more)).contains(k) <==> symbols(s).contains(k) || k == more@,
{
    let t = s.push(more);
    assert(t[s.len() as int]@ == more@);
    if symbols(s).contains(k) {
        let i = choose|i: int| 0 <= i < s.len() && #[trigger] s[i]@ == k;
        assert(t[i]@ == k);
    }
    if symbols(t).contains(k) {
        let i = choose|i: int| 0 <= i < t.len() && #[trigger] t[i]@ == k;
        if i < s.len() {
            assert(s[i]@ == k);
        }
    }
}

} // verus!

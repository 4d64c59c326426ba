//! Synthesized replacement names: one adjective and one noun drawn from the
//! supplied word lists, joined with a hyphen. Which element is drawn is up to
//! the outside random-number generator; the contracts say only that the parts
//! come from the lists.

use rand::seq::SliceRandom;
use vstd::prelude::*;
use vstd::string::StringExecFns;

verus! {

/// `v` is some adjective from `adjs` and some noun from `nouns`, joined with
/// a hyphen.
pub open spec fn is_github_name(adjs: Seq<Seq<char>>, nouns: Seq<Seq<char>>, v: Seq<char>) -> bool {
    exists|i: int, j: int|
        0 <= i < adjs.len() && 0 <= j < nouns.len() && v == adjs[i] + seq!['-'] + nouns[j]
}

/// Relies on rand's `SliceRandom::choose` for slices: `None` exactly when the
/// slice is empty, otherwise a reference to one of its elements.
#[verifier::external_body]
pub(crate) fn choose_word(words: &[String]) -> (r: Option<&String>)
    ensures
        r is Some <==> words@.len() > 0,
        r is Some ==> exists|i: int|
            0 <= i < words@.len() && r->Some_0@ == (#[trigger] words@[i])@,
{
    words.choose(&mut rand::thread_rng())
}

/// A hyphen-joined adjective-noun pair from the two word lists; an empty
/// adjective list falls back to "happy", an empty noun list falls back to
/// repeating the adjective.
pub fn generate_random_name(adjectives: &[String], nouns: &[String]) -> (r: String)
    ensures
        exists|a: Seq<char>, n: Seq<char>|
            {
                &&& (if adjectives@.len() > 0 {
                    exists|i: int| 0 <= i < adjectives@.len() && a == (#[trigger] adjectives@[i])@
                } else {
                    a == "happy"@
                })
                &&& (if nouns@.len() > 0 {
                    exists|j: int| 0 <= j < nouns@.len() && n == (#[trigger] nouns@[j])@
                } else {
                    n == a
                })
                &&& r@ == a + seq!['-'] + n
            },
        adjectives@.len() > 0 && nouns@.len() > 0 ==> is_github_name(
            adjectives.deep_view(),
            nouns.deep_view(),
            r@,
        ),
{
    let adjective: String = match choose_word(adjectives) {
        Some(a) => a.clone(),
        None => "happy".to_owned(),
    };
    let noun: String = match choose_word(nouns) {
        Some(n) => n.clone(),
        None => adjective.clone(),
    };
    let mut out = adjective;
    let ghost a = out@;
    let ghost n = noun@;
    out.append("-");
    out.append(noun.as_str());
    proof {
        reveal_strlit("-");
        assert(out@ =~= a + seq!['-'] + n);
        if adjectives@.len() > 0 && nouns@.len() > 0 {
            let i = choose|i: int| 0 <= i < adjectives@.len() && a == adjectives@[i]@;
            let j = choose|j: int| 0 <= j < nouns@.len() && n == nouns@[j]@;
            assert(adjectives.deep_view()[i] == adjectives@[i]@);
            assert(nouns.deep_view()[j] == nouns@[j]@);
            assert(is_github_name(adjectives.deep_view(), nouns.deep_view(), out@));
        }
    }
    out
}

} // verus!

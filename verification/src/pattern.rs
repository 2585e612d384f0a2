//! Picking streams by name.
use crate::text::{same, starts_with, strip_suffix_char, without_last};
use vstd::prelude::*;

verus! {

/// Whether a pattern covers a name. A `*` at its end stands for anything.
pub open spec fn covered(pattern: Seq<char>, name: Seq<char>) -> bool {
    match without_last(pattern, '*') {
        Some(prefix) => prefix.is_prefix_of(name),
        None => name == pattern,
    }
}

/// Whether any of the patterns covers a name.
pub open spec fn any_covers(patterns: Seq<String>, name: Seq<char>) -> bool {
    exists|i: int| 0 <= i < patterns.len() && covered((#[trigger] patterns[i])@, name)
}

/// Whether a name is picked: no patterns pick every name.
pub open spec fn picked(patterns: Seq<String>, name: Seq<char>) -> bool {
    patterns.len() == 0 || any_covers(patterns, name)
}

/// A prefix is what a name holds character for character.
proof fn lemma_prefix_by_character(prefix: Seq<char>, name: Seq<char>)
    ensures
        prefix.is_prefix_of(name) <==> prefix.len() <= name.len() && forall|i: int|
            0 <= i < prefix.len() ==> name[i] == prefix[i],
{
    if prefix.is_prefix_of(name) {
        let start = name.subrange(0, prefix.len() as int);
        assert(start == prefix);
        assert forall|i: int| 0 <= i < prefix.len() implies name[i] == prefix[i] by {
            assert(start[i] == name[i]);
        }
    }
    if prefix.len() <= name.len() && forall|i: int| 0 <= i < prefix.len() ==> name[i] == prefix[i] {
        assert(prefix =~= name.subrange(0, prefix.len() as int));
    }
}

pub fn matches(pattern: &str, name: &str) -> (r: bool)
    ensures
        r == covered(pattern@, name@),
        pattern@.len() == 0 || pattern@.last() != '*' ==> (r <==> name@ == pattern@),
        pattern@.len() > 0 && pattern@.last() == '*' ==> (r <==> pattern@.len() - 1 <= name@.len()
            && forall|i: int| 0 <= i < pattern@.len() - 1 ==> name@[i] == pattern@[i]),
{
    proof {
        lemma_prefix_by_character(pattern@.drop_last(), name@);
    }
    match strip_suffix_char(pattern, '*') {
        Some(prefix) => starts_with(name, prefix),
        None => same(name, pattern),
    }
}

pub fn any_matches(patterns: &[String], name: &str) -> (r: bool)
    ensures
        r == any_covers(patterns@, name@),
{
    let mut i: usize = 0;
    while i < patterns.len()
        invariant
            i <= patterns@.len(),
            forall|j: int| 0 <= j < i ==> !covered((#[trigger] patterns@[j])@, name@),
        decreases patterns@.len() - i,
    {
        if matches(patterns[i].as_str(), name) {
            return true;
        }
        i = i + 1;
    }
    false
}

/// Whether the stream of that name is replayed.
pub fn selects(patterns: &[String], name: &str) -> (r: bool)
    ensures
        r == picked(patterns@, name@),
{
    patterns.len() == 0 || any_matches(patterns, name)
}

// ----------------------------------------------------------------------- laws
/// A pattern that does not end in `*` covers its own name, and no other.
pub proof fn law_a_plain_pattern_covers_one_name(pattern: Seq<char>, name: Seq<char>)
    requires
        pattern.len() == 0 || pattern[pattern.len() - 1] != '*',
    ensures
        covered(pattern, pattern),
        covered(pattern, name) ==> name.len() == pattern.len(),
        covered(pattern, name) ==> forall|i: int|
            0 <= i < pattern.len() ==> #[trigger] name[i] == pattern[i],
{
}

/// A pattern that ends in `*` covers exactly the names that open with what stands before the `*`, be it
/// followed by something or not.
pub proof fn law_a_starred_pattern_covers_what_opens_with_it(prefix: Seq<char>, name: Seq<char>)
    ensures
        covered(prefix.push('*'), name) <==> {
            &&& prefix.len() <= name.len()
            &&& forall|i: int| 0 <= i < prefix.len() ==> #[trigger] name[i] == prefix[i]
        },
{
    let pattern = prefix.push('*');
    assert(pattern.drop_last() =~= prefix);
    if prefix.len() <= name.len() && (forall|i: int|
        0 <= i < prefix.len() ==> #[trigger] name[i] == prefix[i]) {
        assert(prefix =~= name.subrange(0, prefix.len() as int));
    }
    if prefix.is_prefix_of(name) {
        assert forall|i: int| 0 <= i < prefix.len() implies #[trigger] name[i] == prefix[i] by {
            assert(name.subrange(0, prefix.len() as int)[i] == name[i]);
        }
    }
}

/// A lone `*` covers everything.
pub proof fn law_a_lone_star_covers_everything(name: Seq<char>)
    ensures
        covered(seq!['*'], name),
{
    law_a_starred_pattern_covers_what_opens_with_it(Seq::empty(), name);
    assert(Seq::<char>::empty().push('*') =~= seq!['*']);
}

/// Without patterns every name is picked. One more pattern picks what it covers, and takes nothing away
/// from what those before it pick.
pub proof fn law_patterns_add_up(patterns: Seq<String>, more: String, name: Seq<char>)
    ensures
        picked(Seq::empty(), name),
        !any_covers(Seq::empty(), name),
        any_covers(patterns.push(more), name) <==> any_covers(patterns, name) || covered(more@, name),
        picked(patterns.push(more), name) <==> any_covers(patterns, name) || covered(more@, name),
{
    let all = patterns.push(more);
    if any_covers(patterns, name) {
        let i = choose|i: int| 0 <= i < patterns.len() && covered((#[trigger] patterns[i])@, name);
        assert(covered(all[i]@, name));
    }
    if covered(more@, name) {
        assert(covered(all[patterns.len() as int]@, name));
    }
    if any_covers(all, name) {
        let i = choose|i: int| 0 <= i < all.len() && covered((#[trigger] all[i])@, name);
        if i < patterns.len() {
            assert(covered(patterns[i]@, name));
        }
    }
}

} // verus!

//! The expansion as a whole: which entries the patterns of a run yield,
//! and in what order, given what the directories on disk hold.
//!
//! The expansion itself goes directory by directory and never sees the
//! disk. Here the listings are a value, the caller answers every request
//! from it, and the steps are put together.

use vstd::prelude::*;
use crate::exclude::excludes;
use crate::expand::{
    dir_prefix,
    dirs_in,
    lemma_matches_in,
    matches_in,
    selects,
    ChildView,
    ExpansionView,
};
use crate::glob::is_literal;
use crate::path::normalize;

verus! {

/// What listing each directory gives, by the directory's path closed by
/// `/` (empty for the current directory). A directory that is not in the
/// map cannot be listed.
pub type Listings = Map<Seq<char>, Seq<ChildView>>;

/// The expansion taken on from `x` for at most `fuel` listings, every
/// request answered from `listings`, until it is over.
pub open spec fn harvest(
    x: ExpansionView,
    rules: Seq<Seq<char>>,
    listings: Listings,
    fuel: nat,
) -> ExpansionView
    decreases fuel,
{
    if fuel == 0 {
        x
    } else {
        match x.listing {
            None => x,
            Some(prefix) => harvest(
                if listings.contains_key(prefix) {
                    x.supply(rules, listings[prefix])
                } else {
                    x.pass_over(rules)
                },
                rules,
                listings,
                (fuel - 1) as nat,
            ),
        }
    }
}

/// The entries that the pattern `raw` yields in the directory at
/// `prefix` and below it, down to `depth` directories deep: what the
/// directory itself holds first, then what each directory in it holds,
/// in the order of the listing.
pub open spec fn gather(
    raw: Seq<char>,
    rules: Seq<Seq<char>>,
    listings: Listings,
    prefix: Seq<char>,
    depth: nat,
) -> Seq<Seq<char>>
    decreases depth, 0nat,
{
    if !listings.contains_key(prefix) {
        Seq::<Seq<char>>::empty()
    } else {
        matches_in(raw, rules, prefix, listings[prefix]) + if depth > 0 {
            gather_stack(
                raw,
                rules,
                listings,
                dirs_in(raw, rules, prefix, listings[prefix]),
                (depth - 1) as nat,
            )
        } else {
            Seq::<Seq<char>>::empty()
        }
    }
}

/// The entries that the pattern yields in the directories that stand to
/// be listed, the last of them first.
pub open spec fn gather_stack(
    raw: Seq<char>,
    rules: Seq<Seq<char>>,
    listings: Listings,
    dirs: Seq<Seq<char>>,
    depth: nat,
) -> Seq<Seq<char>>
    decreases depth, dirs.len() + 1,
{
    if dirs.len() == 0 {
        Seq::<Seq<char>>::empty()
    } else {
        gather(raw, rules, listings, dirs.last(), depth) + gather_stack(
            raw,
            rules,
            listings,
            dirs.drop_last(),
            depth,
        )
    }
}

/// How many listings the walk for the pattern takes in the directory at
/// `prefix` and below it.
pub open spec fn listings_in(
    raw: Seq<char>,
    rules: Seq<Seq<char>>,
    listings: Listings,
    prefix: Seq<char>,
    depth: nat,
) -> nat
    decreases depth, 0nat,
{
    if !listings.contains_key(prefix) || depth == 0 {
        1
    } else {
        1 + listings_of(
            raw,
            rules,
            listings,
            dirs_in(raw, rules, prefix, listings[prefix]),
            (depth - 1) as nat,
        )
    }
}

/// How many listings the walk for the pattern takes in the directories
/// that stand to be listed.
pub open spec fn listings_of(
    raw: Seq<char>,
    rules: Seq<Seq<char>>,
    listings: Listings,
    dirs: Seq<Seq<char>>,
    depth: nat,
) -> nat
    decreases depth, dirs.len() + 1,
{
    if dirs.len() == 0 {
        0
    } else {
        listings_in(raw, rules, listings, dirs.last(), depth) + listings_of(
            raw,
            rules,
            listings,
            dirs.drop_last(),
            depth,
        )
    }
}

/// Whether what the walk for the pattern enters below the directory at
/// `prefix` is at most `depth` directories deep.
pub open spec fn reaches(
    raw: Seq<char>,
    rules: Seq<Seq<char>>,
    listings: Listings,
    prefix: Seq<char>,
    depth: nat,
) -> bool
    decreases depth, 0nat,
{
    !listings.contains_key(prefix) || dirs_in(raw, rules, prefix, listings[prefix]).len() == 0 || (
    depth > 0 && reaches_all(
        raw,
        rules,
        listings,
        dirs_in(raw, rules, prefix, listings[prefix]),
        (depth - 1) as nat,
    ))
}

/// Whether what the walk for the pattern enters below the directories
/// that stand to be listed is at most `depth` directories deep.
pub open spec fn reaches_all(
    raw: Seq<char>,
    rules: Seq<Seq<char>>,
    listings: Listings,
    dirs: Seq<Seq<char>>,
    depth: nat,
) -> bool
    decreases depth, dirs.len() + 1,
{
    dirs.len() == 0 || (reaches(raw, rules, listings, dirs.last(), depth) && reaches_all(
        raw,
        rules,
        listings,
        dirs.drop_last(),
        depth,
    ))
}

/// The entries that one pattern yields: the pattern itself where it
/// holds no wildcard and is not excluded, else what is gathered from the
/// directory that all its matches lie in.
pub open spec fn yield_of(
    raw: Seq<char>,
    rules: Seq<Seq<char>>,
    listings: Listings,
    depth: nat,
) -> Seq<Seq<char>> {
    if is_literal(normalize(raw)) {
        if excludes(rules, raw) {
            Seq::<Seq<char>>::empty()
        } else {
            seq![raw]
        }
    } else {
        gather(raw, rules, listings, dir_prefix(normalize(raw)), depth)
    }
}

/// The entries that the patterns from index `from` on yield, pattern by
/// pattern.
pub open spec fn yield_from(
    inputs: Seq<Seq<char>>,
    from: nat,
    rules: Seq<Seq<char>>,
    listings: Listings,
    depth: nat,
) -> Seq<Seq<char>>
    decreases inputs.len() - from,
{
    if from >= inputs.len() {
        Seq::<Seq<char>>::empty()
    } else {
        yield_of(inputs[from as int], rules, listings, depth) + yield_from(
            inputs,
            from + 1,
            rules,
            listings,
            depth,
        )
    }
}

/// How many listings the patterns from index `from` on take.
pub open spec fn listings_from(
    inputs: Seq<Seq<char>>,
    from: nat,
    rules: Seq<Seq<char>>,
    listings: Listings,
    depth: nat,
) -> nat
    decreases inputs.len() - from,
{
    if from >= inputs.len() {
        0
    } else {
        (if is_literal(normalize(inputs[from as int])) {
            0nat
        } else {
            listings_in(
                inputs[from as int],
                rules,
                listings,
                dir_prefix(normalize(inputs[from as int])),
                depth,
            )
        }) + listings_from(inputs, from + 1, rules, listings, depth)
    }
}

/// Whether the walks for the patterns from index `from` on go at most
/// `depth` directories deep.
pub open spec fn reach_from(
    inputs: Seq<Seq<char>>,
    from: nat,
    rules: Seq<Seq<char>>,
    listings: Listings,
    depth: nat,
) -> bool
    decreases inputs.len() - from,
{
    from >= inputs.len() || ((is_literal(normalize(inputs[from as int])) || reaches(
        inputs[from as int],
        rules,
        listings,
        dir_prefix(normalize(inputs[from as int])),
        depth,
    )) && reach_from(inputs, from + 1, rules, listings, depth))
}

/// The expansion between two listings: nothing asked for, this much
/// found, and these directories still to be listed.
pub open spec fn between(
    x: ExpansionView,
    found: Seq<Seq<char>>,
    dirs: Seq<Seq<char>>,
) -> ExpansionView {
    ExpansionView { found, dirs, listing: None, ..x }
}

/// While a pattern is walked, the expansion lists the directory at hand
/// and everything that it enters below it, finds what the pattern yields
/// there, and then goes on with the directories that stood to be listed
/// before.
pub proof fn lemma_directory(
    x: ExpansionView,
    rules: Seq<Seq<char>>,
    listings: Listings,
    depth: nat,
    fuel: nat,
)
    requires
        x.walking,
        x.cursor < x.inputs.len(),
        x.listing is Some,
        reaches(x.inputs[x.cursor as int], rules, listings, x.listing->Some_0, depth),
        fuel >= listings_in(x.inputs[x.cursor as int], rules, listings, x.listing->Some_0, depth),
    ensures
        harvest(x, rules, listings, fuel) == harvest(
            between(
                x,
                x.found + gather(
                    x.inputs[x.cursor as int],
                    rules,
                    listings,
                    x.listing->Some_0,
                    depth,
                ),
                x.dirs,
            ).proceed(rules),
            rules,
            listings,
            (fuel - listings_in(
                x.inputs[x.cursor as int],
                rules,
                listings,
                x.listing->Some_0,
                depth,
            )) as nat,
        ),
    decreases depth, 0nat,
{
    let raw = x.inputs[x.cursor as int];
    let prefix = x.listing->Some_0;
    let none = Seq::<Seq<char>>::empty();
    if !listings.contains_key(prefix) {
        assert(x.found + none =~= x.found);
        assert(x.pass_over(rules) == between(x, x.found, x.dirs).proceed(rules));
    } else {
        let kids = listings[prefix];
        let here = matches_in(raw, rules, prefix, kids);
        let more = dirs_in(raw, rules, prefix, kids);
        let grown = between(x, x.found + here, x.dirs + more);
        assert(x.supply(rules, kids) == grown.proceed(rules));
        if more.len() == 0 {
            assert(x.dirs + more =~= x.dirs);
            assert(gather_stack(raw, rules, listings, more, (depth - 1) as nat) == none);
            assert(here + none =~= here);
            if depth > 0 {
                assert(listings_of(raw, rules, listings, more, (depth - 1) as nat) == 0);
            }
        } else {
            lemma_directories(
                grown,
                rules,
                listings,
                x.dirs,
                more,
                (depth - 1) as nat,
                (fuel - 1) as nat,
            );
            let below = gather_stack(raw, rules, listings, more, (depth - 1) as nat);
            assert((x.found + here) + below =~= x.found + (here + below));
        }
    }
}

/// While a pattern is walked, the expansion lists the directories that
/// stand to be listed, the last of them first, and then goes on with the
/// ones that stood there before.
pub proof fn lemma_directories(
    x: ExpansionView,
    rules: Seq<Seq<char>>,
    listings: Listings,
    behind: Seq<Seq<char>>,
    dirs: Seq<Seq<char>>,
    depth: nat,
    fuel: nat,
)
    requires
        x.walking,
        x.cursor < x.inputs.len(),
        x.listing is None,
        x.dirs == behind + dirs,
        reaches_all(x.inputs[x.cursor as int], rules, listings, dirs, depth),
        fuel >= listings_of(x.inputs[x.cursor as int], rules, listings, dirs, depth),
    ensures
        harvest(x.proceed(rules), rules, listings, fuel) == harvest(
            between(
                x,
                x.found + gather_stack(x.inputs[x.cursor as int], rules, listings, dirs, depth),
                behind,
            ).proceed(rules),
            rules,
            listings,
            (fuel - listings_of(x.inputs[x.cursor as int], rules, listings, dirs, depth)) as nat,
        ),
    decreases depth, dirs.len() + 1,
{
    let raw = x.inputs[x.cursor as int];
    let none = Seq::<Seq<char>>::empty();
    if dirs.len() == 0 {
        assert(x.dirs =~= behind);
        assert(x.found + none =~= x.found);
        assert(between(x, x.found, behind) == x);
    } else {
        let top = dirs.last();
        let rest = dirs.drop_last();
        assert(x.dirs.last() == top);
        assert(x.dirs.drop_last() =~= behind + rest);
        let listing = x.proceed(rules);
        assert(listing == (ExpansionView {
            listing: Some(top),
            dirs: behind + rest,
            ..x
        }));
        lemma_directory(listing, rules, listings, depth, fuel);
        let here = gather(raw, rules, listings, top, depth);
        let used = listings_in(raw, rules, listings, top, depth);
        let next = between(listing, x.found + here, behind + rest);
        lemma_directories(next, rules, listings, behind, rest, depth, (fuel - used) as nat);
        let later = gather_stack(raw, rules, listings, rest, depth);
        assert((x.found + here) + later =~= x.found + (here + later));
        assert(between(next, next.found + later, behind) == between(
            x,
            x.found + gather_stack(raw, rules, listings, dirs, depth),
            behind,
        ));
    }
}

/// Between two patterns, the expansion takes the patterns that are left
/// one by one, finds what each yields, and is over after the last.
pub proof fn lemma_patterns(
    x: ExpansionView,
    rules: Seq<Seq<char>>,
    listings: Listings,
    depth: nat,
    fuel: nat,
)
    requires
        !x.walking,
        x.listing is None,
        x.dirs.len() == 0,
        x.cursor <= x.inputs.len(),
        reach_from(x.inputs, x.cursor, rules, listings, depth),
        fuel >= listings_from(x.inputs, x.cursor, rules, listings, depth),
    ensures
        harvest(x.proceed(rules), rules, listings, fuel) == (ExpansionView {
            found: x.found + yield_from(x.inputs, x.cursor, rules, listings, depth),
            cursor: x.inputs.len(),
            ..x
        }),
    decreases x.inputs.len() - x.cursor,
{
    let none = Seq::<Seq<char>>::empty();
    if x.cursor >= x.inputs.len() {
        assert(x.found + none =~= x.found);
        assert(x.proceed(rules) == x);
    } else {
        let raw = x.inputs[x.cursor as int];
        let later = yield_from(x.inputs, x.cursor + 1, rules, listings, depth);
        if is_literal(normalize(raw)) {
            let here = yield_of(raw, rules, listings, depth);
            let next = ExpansionView { found: x.found + here, cursor: x.cursor + 1, ..x };
            assert(x.found + none =~= x.found);
            assert(x.found + seq![raw] =~= x.found.push(raw));
            assert(x.proceed(rules) == next.proceed(rules));
            lemma_patterns(next, rules, listings, depth, fuel);
            assert((x.found + here) + later =~= x.found + (here + later));
        } else {
            let prefix = dir_prefix(normalize(raw));
            let here = gather(raw, rules, listings, prefix, depth);
            let used = listings_in(raw, rules, listings, prefix, depth);
            let listing = x.proceed(rules);
            assert(listing == (ExpansionView {
                walking: true,
                listing: Some(prefix),
                dirs: none,
                ..x
            }));
            lemma_directory(listing, rules, listings, depth, fuel);
            let walked = between(listing, x.found + here, none);
            let next = ExpansionView { found: x.found + here, cursor: x.cursor + 1, ..x };
            assert(walked.proceed(rules) == next.proceed(rules)) by {
                assert(x.dirs =~= none);
            }
            lemma_patterns(next, rules, listings, depth, (fuel - used) as nat);
            assert((x.found + here) + later =~= x.found + (here + later));
        }
    }
}

/// A whole expansion finds, pattern by pattern, what each pattern
/// yields: a pattern without a wildcard itself, unless it is excluded;
/// for any other pattern the children that it stands for and that are
/// not excluded, directory by directory, from the directory that all its
/// matches lie in. After that the expansion is over.
pub proof fn lemma_whole_expansion(
    inputs: Seq<Seq<char>>,
    rules: Seq<Seq<char>>,
    listings: Listings,
    depth: nat,
    fuel: nat,
)
    requires
        reach_from(inputs, 0, rules, listings, depth),
        fuel >= listings_from(inputs, 0, rules, listings, depth),
    ensures
        harvest(ExpansionView::initial(inputs).proceed(rules), rules, listings, fuel).found
            == yield_from(inputs, 0, rules, listings, depth),
        harvest(ExpansionView::initial(inputs).proceed(rules), rules, listings, fuel).done(),
{
    let start = ExpansionView::initial(inputs);
    lemma_patterns(start, rules, listings, depth, fuel);
    let all = yield_from(inputs, 0, rules, listings, depth);
    assert(start.found + all =~= all);
}

/// Whether the pattern yields every one of the entries: it stands for
/// each, and none is excluded.
pub open spec fn all_selected(raw: Seq<char>, rules: Seq<Seq<char>>, entries: Seq<Seq<char>>) -> bool {
    forall|k: int| 0 <= k < entries.len() ==> selects(raw, rules, #[trigger] entries[k])
}

/// Whatever is gathered for a pattern is what the pattern stands for,
/// and is not excluded.
pub proof fn lemma_gathered_are_selected(
    raw: Seq<char>,
    rules: Seq<Seq<char>>,
    listings: Listings,
    prefix: Seq<char>,
    depth: nat,
)
    ensures
        all_selected(raw, rules, gather(raw, rules, listings, prefix, depth)),
    decreases depth, 0nat,
{
    if listings.contains_key(prefix) {
        let kids = listings[prefix];
        let here = matches_in(raw, rules, prefix, kids);
        lemma_matches_in(raw, rules, prefix, kids);
        if depth > 0 {
            lemma_stack_gathered_are_selected(
                raw,
                rules,
                listings,
                dirs_in(raw, rules, prefix, kids),
                (depth - 1) as nat,
            );
        }
        let all = gather(raw, rules, listings, prefix, depth);
        assert forall|k: int| 0 <= k < all.len() implies selects(raw, rules, #[trigger] all[k]) by {
            if k < here.len() {
                assert(all[k] == here[k]);
            } else {
                let below = gather_stack(
                    raw,
                    rules,
                    listings,
                    dirs_in(raw, rules, prefix, kids),
                    (depth - 1) as nat,
                );
                assert(all[k] == below[k - here.len()]);
            }
        }
    }
}

/// Whatever is gathered for a pattern from the directories that stand to
/// be listed is what the pattern stands for, and is not excluded.
pub proof fn lemma_stack_gathered_are_selected(
    raw: Seq<char>,
    rules: Seq<Seq<char>>,
    listings: Listings,
    dirs: Seq<Seq<char>>,
    depth: nat,
)
    ensures
        all_selected(raw, rules, gather_stack(raw, rules, listings, dirs, depth)),
    decreases depth, dirs.len() + 1,
{
    if dirs.len() > 0 {
        let here = gather(raw, rules, listings, dirs.last(), depth);
        let later = gather_stack(raw, rules, listings, dirs.drop_last(), depth);
        lemma_gathered_are_selected(raw, rules, listings, dirs.last(), depth);
        lemma_stack_gathered_are_selected(raw, rules, listings, dirs.drop_last(), depth);
        let all = gather_stack(raw, rules, listings, dirs, depth);
        assert forall|k: int| 0 <= k < all.len() implies selects(raw, rules, #[trigger] all[k]) by {
            if k < here.len() {
                assert(all[k] == here[k]);
            } else {
                assert(all[k] == later[k - here.len()]);
            }
        }
    }
}

} // verus!

//! The traversal of a whole tree of three or four levels, which reports
//! every present descriptor before and after what lies below it.

use vstd::prelude::*;
use crate::PagingError;
use crate::entry::GenericPTE;
use crate::handler::PagingHandler;
use crate::walk64::{entry_at, next_table, read_entry, spec_next_table, ENTRY_COUNT};

verus! {

/// One report of a traversal: a present descriptor, seen before or after
/// what lies below it.
pub struct WalkVisit<PTE: GenericPTE> {
    /// Whether this is the report after what lies below the descriptor.
    pub after: bool,
    /// Current level (starts with `0`).
    pub level: usize,
    /// The index of the entry in the current-level table.
    pub index: usize,
    /// The virtual address that is mapped to the entry.
    pub vaddr: usize,
    /// The entry.
    pub entry: PTE,
}

/// The number of address bits that a descriptor at `level` leaves to what
/// lies below it, in a tree of `levels` levels.
pub open spec fn spec_level_shift(level: usize, levels: usize) -> u64 {
    (12 + (levels - 1 - level) * 9) as u64
}

/// The first virtual address that the descriptor at `index` of a table at
/// `level` serves, where the table serves addresses from `start`.
pub open spec fn spec_entry_vaddr(start: u64, index: usize, level: usize, levels: usize) -> u64 {
    (start + ((index as u64) << spec_level_shift(level, levels))) as u64
}

/// The number of addresses that a table at `level` serves.
pub open spec fn table_span(level: usize, levels: usize) -> int {
    if levels - level == 1 {
        0x20_0000
    } else if levels - level == 2 {
        0x4000_0000
    } else if levels - level == 3 {
        0x80_0000_0000
    } else {
        0x1_0000_0000_0000
    }
}

/// The first virtual address that the descriptor at `index` serves, and the
/// room that is left behind it.
pub fn entry_vaddr(start: u64, index: usize, level: usize, levels: usize) -> (r: u64)
    requires
        levels == 3 || levels == 4,
        level < levels,
        index < ENTRY_COUNT,
        start + table_span(level, levels) <= u64::MAX,
    ensures
        r == spec_entry_vaddr(start, index, level, levels),
        level + 1 < levels ==> r + table_span((level + 1) as usize, levels) <= u64::MAX,
{
    let shift: u64 = (12 + (levels - 1 - level) * 9) as u64;
    let i: u64 = index as u64;
    assert(i < 512 && (shift == 12 || shift == 21 || shift == 30 || shift == 39) ==> (i << shift)
        + (1u64 << shift) <= (512u64 << shift) && (512u64 << 12) == 0x20_0000 && (512u64 << 21)
        == 0x4000_0000 && (512u64 << 30) == 0x80_0000_0000 && (512u64 << 39)
        == 0x1_0000_0000_0000 && (1u64 << 21) == 0x20_0000 && (1u64 << 30) == 0x4000_0000 && (
    1u64 << 39) == 0x80_0000_0000) by (bit_vector);
    start + (i << shift)
}

/// What a traversal reports and how it ends.
pub struct WalkOutcome<PTE: GenericPTE> {
    /// The reports, in order.
    pub visits: Seq<WalkVisit<PTE>>,
    /// The result: an error where a strict traversal found a present
    /// descriptor of an upper level that points nowhere.
    pub result: Result<(), PagingError>,
}

/// What lies below the present descriptor `entry` of a table at `level`,
/// where `inner` is the traversal of the table that it points to: `inner`
/// if the descriptor is not at the last level, is not huge and points to a
/// table. Where it points nowhere, a strict traversal ends with the error,
/// and any other finds nothing below.
pub open spec fn spec_walk_below<PTE: GenericPTE>(
    levels: usize,
    level: usize,
    strict: bool,
    entry: PTE,
    inner: WalkOutcome<PTE>,
) -> WalkOutcome<PTE> {
    if level < levels - 1 && !entry.spec_is_huge() {
        match spec_next_table(entry) {
            Ok(_) => inner,
            Err(err) => WalkOutcome {
                visits: Seq::empty(),
                result: if strict {
                    Err(err)
                } else {
                    Ok(())
                },
            },
        }
    } else {
        WalkOutcome { visits: Seq::empty(), result: Ok(()) }
    }
}

/// The reports for the present descriptor `entry` at `index` of a table at
/// `level`, which serves addresses from `vaddr`: the descriptor before what
/// lies below it if `pre` is set, what lies below it, and the descriptor
/// again if `post` is set and nothing below failed.
pub open spec fn spec_walk_entry<PTE: GenericPTE>(
    levels: usize,
    level: usize,
    vaddr: u64,
    pre: bool,
    post: bool,
    strict: bool,
    index: usize,
    entry: PTE,
    inner: WalkOutcome<PTE>,
) -> WalkOutcome<PTE> {
    let before = if pre {
        seq![WalkVisit { after: false, level, index, vaddr: vaddr as usize, entry }]
    } else {
        Seq::empty()
    };
    let below = spec_walk_below::<PTE>(levels, level, strict, entry, inner);
    if below.result is Err {
        WalkOutcome { visits: before + below.visits, result: below.result }
    } else {
        let behind = if post {
            seq![WalkVisit { after: true, level, index, vaddr: vaddr as usize, entry }]
        } else {
            Seq::empty()
        };
        WalkOutcome { visits: before + below.visits + behind, result: Ok(()) }
    }
}

/// The traversal of the table at `table`, which is at `level` and serves
/// addresses from `start`, from the descriptor at `index` on, when `seen`
/// present descriptors of the table were reported before.
///
/// A descriptor that is not present is passed over. A present one is
/// reported as [`spec_walk_entry`] says, with the traversal of the table
/// that it points to. The traversal of a table ends where something below
/// failed, where the frame of the table is missing, and once `limit` present
/// descriptors of it were reported: with a `limit` of zero nothing is
/// reported.
#[verifier::opaque]
pub open spec fn spec_walk<PTE: GenericPTE>(
    frames: Map<usize, Seq<u64>>,
    levels: usize,
    table: usize,
    level: usize,
    start: u64,
    limit: usize,
    pre: bool,
    post: bool,
    strict: bool,
    index: usize,
    seen: usize,
) -> WalkOutcome<PTE>
    decreases levels - level, ENTRY_COUNT - index,
{
    if index >= ENTRY_COUNT || level >= levels || seen >= limit {
        WalkOutcome { visits: Seq::empty(), result: Ok(()) }
    } else {
        match entry_at::<PTE>(frames, table, index) {
            Some(entry) => if entry.spec_is_present() {
                let vaddr = spec_entry_vaddr(start, index, level, levels);
                let here = spec_walk_entry::<PTE>(
                    levels,
                    level,
                    vaddr,
                    pre,
                    post,
                    strict,
                    index,
                    entry,
                    spec_walk::<PTE>(
                        frames,
                        levels,
                        entry.spec_paddr(),
                        (level + 1) as usize,
                        vaddr,
                        limit,
                        pre,
                        post,
                        strict,
                        0,
                        0,
                    ),
                );
                if here.result is Err {
                    here
                } else {
                    let rest = spec_walk::<PTE>(
                        frames,
                        levels,
                        table,
                        level,
                        start,
                        limit,
                        pre,
                        post,
                        strict,
                        (index + 1) as usize,
                        (seen + 1) as usize,
                    );
                    WalkOutcome { visits: here.visits + rest.visits, result: rest.result }
                }
            } else {
                spec_walk::<PTE>(
                    frames,
                    levels,
                    table,
                    level,
                    start,
                    limit,
                    pre,
                    post,
                    strict,
                    (index + 1) as usize,
                    seen,
                )
            },
            None => WalkOutcome { visits: Seq::empty(), result: Ok(()) },
        }
    }
}

/// The traversal of a table from the descriptor at `index` on, case by case.
pub proof fn lemma_walk_step<PTE: GenericPTE>(
    frames: Map<usize, Seq<u64>>,
    levels: usize,
    table: usize,
    level: usize,
    start: u64,
    limit: usize,
    pre: bool,
    post: bool,
    strict: bool,
    index: usize,
    seen: usize,
)
    requires
        level < levels,
    ensures
        ({
            let all = spec_walk::<PTE>(
                frames,
                levels,
                table,
                level,
                start,
                limit,
                pre,
                post,
                strict,
                index,
                seen,
            );
            let skip = spec_walk::<PTE>(
                frames,
                levels,
                table,
                level,
                start,
                limit,
                pre,
                post,
                strict,
                (index + 1) as usize,
                seen,
            );
            let next = spec_walk::<PTE>(
                frames,
                levels,
                table,
                level,
                start,
                limit,
                pre,
                post,
                strict,
                (index + 1) as usize,
                (seen + 1) as usize,
            );
            if index >= ENTRY_COUNT || seen >= limit {
                all == (WalkOutcome::<PTE> { visits: Seq::empty(), result: Ok(()) })
            } else {
                match entry_at::<PTE>(frames, table, index) {
                    Some(entry) => if entry.spec_is_present() {
                        let vaddr = spec_entry_vaddr(start, index, level, levels);
                        let here = spec_walk_entry::<PTE>(
                            levels,
                            level,
                            vaddr,
                            pre,
                            post,
                            strict,
                            index,
                            entry,
                            spec_walk::<PTE>(
                                frames,
                                levels,
                                entry.spec_paddr(),
                                (level + 1) as usize,
                                vaddr,
                                limit,
                                pre,
                                post,
                                strict,
                                0,
                                0,
                            ),
                        );
                        if here.result is Err {
                            all == here
                        } else {
                            all == (WalkOutcome::<PTE> {
                                visits: here.visits + next.visits,
                                result: next.result,
                            })
                        }
                    } else {
                        all == skip
                    },
                    None => all == (WalkOutcome::<PTE> { visits: Seq::empty(), result: Ok(()) }),
                }
            }
        }),
{
    reveal_with_fuel(spec_walk, 2);
}

/// Reports put behind reports that were taken are the same whether they are
/// joined before or after.
pub proof fn lemma_visits_joined<PTE: GenericPTE>(
    taken: Seq<WalkVisit<PTE>>,
    before: Seq<WalkVisit<PTE>>,
    below: Seq<WalkVisit<PTE>>,
    behind: Seq<WalkVisit<PTE>>,
)
    ensures
        taken + (before + below + behind) == ((taken + before) + below) + behind,
        taken + (before + below) == (taken + before) + below,
        taken + Seq::<WalkVisit<PTE>>::empty() == taken,
        before + Seq::<WalkVisit<PTE>>::empty() == before,
        Seq::<WalkVisit<PTE>>::empty() + before == before,
{
    assert(taken + (before + below + behind) =~= ((taken + before) + below) + behind);
    assert(taken + (before + below) =~= (taken + before) + below);
    assert(taken + Seq::<WalkVisit<PTE>>::empty() =~= taken);
    assert(before + Seq::<WalkVisit<PTE>>::empty() =~= before);
    assert(Seq::<WalkVisit<PTE>>::empty() + before =~= before);
}

/// Traverses what lies below the present descriptor `entry` of a table at
/// `level`, where the descriptor serves addresses from `vaddr`.
#[verifier::rlimit(50)]
pub fn walk_below<PTE: GenericPTE, H: PagingHandler>(
    handler: &H,
    levels: usize,
    level: usize,
    vaddr: u64,
    limit: usize,
    pre: bool,
    post: bool,
    strict: bool,
    entry: PTE,
    visits: &mut Vec<WalkVisit<PTE>>,
) -> (r: Result<(), PagingError>)
    requires
        handler.inv(),
        levels == 3 || levels == 4,
        level < levels,
        level + 1 < levels ==> vaddr + table_span((level + 1) as usize, levels) <= u64::MAX,
    ensures
        final(visits)@ == old(visits)@ + spec_walk_below::<PTE>(
            levels,
            level,
            strict,
            entry,
            spec_walk::<PTE>(
                handler.frames(),
                levels,
                entry.spec_paddr(),
                (level + 1) as usize,
                vaddr,
                limit,
                pre,
                post,
                strict,
                0,
                0,
            ),
        ).visits,
        r == spec_walk_below::<PTE>(
            levels,
            level,
            strict,
            entry,
            spec_walk::<PTE>(
                handler.frames(),
                levels,
                entry.spec_paddr(),
                (level + 1) as usize,
                vaddr,
                limit,
                pre,
                post,
                strict,
                0,
                0,
            ),
        ).result,
    decreases levels - level, 0nat,
{
    proof {
        lemma_visits_joined(visits@, Seq::empty(), Seq::empty(), Seq::empty());
    }
    if level < levels - 1 && !entry.is_huge() {
        match next_table(&entry) {
            Ok(child) => walk_recursive::<PTE, H>(
                handler,
                levels,
                child,
                level + 1,
                vaddr,
                limit,
                pre,
                post,
                strict,
                visits,
            ),
            Err(err) => if strict {
                Err(err)
            } else {
                Ok(())
            },
        }
    } else {
        Ok(())
    }
}

/// Reports the present descriptor `entry` at `index` of a table at `level`
/// that serves addresses from `start`, and what lies below it.
#[verifier::rlimit(50)]
pub fn walk_entry<PTE: GenericPTE, H: PagingHandler>(
    handler: &H,
    levels: usize,
    level: usize,
    start: u64,
    limit: usize,
    pre: bool,
    post: bool,
    strict: bool,
    index: usize,
    entry: PTE,
    visits: &mut Vec<WalkVisit<PTE>>,
) -> (r: Result<(), PagingError>)
    requires
        handler.inv(),
        levels == 3 || levels == 4,
        level < levels,
        index < ENTRY_COUNT,
        start + table_span(level, levels) <= u64::MAX,
    ensures
        final(visits)@ == old(visits)@ + spec_walk_entry::<PTE>(
            levels,
            level,
            spec_entry_vaddr(start, index, level, levels),
            pre,
            post,
            strict,
            index,
            entry,
            spec_walk::<PTE>(
                handler.frames(),
                levels,
                entry.spec_paddr(),
                (level + 1) as usize,
                spec_entry_vaddr(start, index, level, levels),
                limit,
                pre,
                post,
                strict,
                0,
                0,
            ),
        ).visits,
        r == spec_walk_entry::<PTE>(
            levels,
            level,
            spec_entry_vaddr(start, index, level, levels),
            pre,
            post,
            strict,
            index,
            entry,
            spec_walk::<PTE>(
                handler.frames(),
                levels,
                entry.spec_paddr(),
                (level + 1) as usize,
                spec_entry_vaddr(start, index, level, levels),
                limit,
                pre,
                post,
                strict,
                0,
                0,
            ),
        ).result,
    decreases levels - level, 1nat,
{
    let ghost taken = visits@;
    let vaddr: u64 = entry_vaddr(start, index, level, levels);
    let address: usize = #[verifier::truncate]
    (vaddr as usize);
    let ghost below = spec_walk_below::<PTE>(
        levels,
        level,
        strict,
        entry,
        spec_walk::<PTE>(
            handler.frames(),
            levels,
            entry.spec_paddr(),
            (level + 1) as usize,
            vaddr,
            limit,
            pre,
            post,
            strict,
            0,
            0,
        ),
    );
    let ghost before: Seq<WalkVisit<PTE>> = if pre {
        seq![WalkVisit { after: false, level, index, vaddr: vaddr as usize, entry }]
    } else {
        Seq::empty()
    };
    let ghost behind: Seq<WalkVisit<PTE>> = if post {
        seq![WalkVisit { after: true, level, index, vaddr: vaddr as usize, entry }]
    } else {
        Seq::empty()
    };
    proof {
        lemma_visits_joined(taken, before, below.visits, behind);
    }
    if pre {
        visits.push(WalkVisit { after: false, level, index, vaddr: address, entry });
        assert(visits@ =~= taken + before);
    }
    assert(visits@ == taken + before);
    walk_below::<PTE, H>(handler, levels, level, vaddr, limit, pre, post, strict, entry, visits)?;
    let ghost with_below = visits@;
    if post {
        visits.push(WalkVisit { after: true, level, index, vaddr: address, entry });
        assert(visits@ =~= with_below + behind);
    }
    Ok(())
}

/// Traverses the table at `table` and appends the reports to `visits`.
#[verifier::rlimit(50)]
pub fn walk_recursive<PTE: GenericPTE, H: PagingHandler>(
    handler: &H,
    levels: usize,
    table: usize,
    level: usize,
    start: u64,
    limit: usize,
    pre: bool,
    post: bool,
    strict: bool,
    visits: &mut Vec<WalkVisit<PTE>>,
) -> (r: Result<(), PagingError>)
    requires
        handler.inv(),
        levels == 3 || levels == 4,
        level < levels,
        start + table_span(level, levels) <= u64::MAX,
    ensures
        final(visits)@ == old(visits)@ + spec_walk::<PTE>(
            handler.frames(),
            levels,
            table,
            level,
            start,
            limit,
            pre,
            post,
            strict,
            0,
            0,
        ).visits,
        r == spec_walk::<PTE>(
            handler.frames(),
            levels,
            table,
            level,
            start,
            limit,
            pre,
            post,
            strict,
            0,
            0,
        ).result,
    decreases levels - level, 2nat,
{
    let ghost frames = handler.frames();
    let ghost total = spec_walk::<PTE>(
        frames,
        levels,
        table,
        level,
        start,
        limit,
        pre,
        post,
        strict,
        0,
        0,
    );
    let mut n: usize = 0;
    let mut i: usize = 0;
    assert(visits@ + total.visits =~= old(visits)@ + total.visits);
    while i < ENTRY_COUNT
        invariant
            handler.inv(),
            handler.frames() == frames,
            total == spec_walk::<PTE>(
                frames,
                levels,
                table,
                level,
                start,
                limit,
                pre,
                post,
                strict,
                0,
                0,
            ),
            levels == 3 || levels == 4,
            level < levels,
            start + table_span(level, levels) <= u64::MAX,
            i <= ENTRY_COUNT,
            n <= i,
            old(visits)@ + total.visits == visits@ + spec_walk::<PTE>(
                frames,
                levels,
                table,
                level,
                start,
                limit,
                pre,
                post,
                strict,
                i,
                n,
            ).visits,
            total.result == spec_walk::<PTE>(
                frames,
                levels,
                table,
                level,
                start,
                limit,
                pre,
                post,
                strict,
                i,
                n,
            ).result,
        decreases ENTRY_COUNT - i,
    {
        let ghost taken = visits@;
        let ghost here = spec_walk::<PTE>(
            frames,
            levels,
            table,
            level,
            start,
            limit,
            pre,
            post,
            strict,
            i,
            n,
        );
        proof {
            lemma_walk_step::<PTE>(
                frames,
                levels,
                table,
                level,
                start,
                limit,
                pre,
                post,
                strict,
                i,
                n,
            );
        }
        if n >= limit {
            assert(taken + here.visits =~= taken);
            return Ok(());
        }
        let entry: PTE = match read_entry::<PTE, H>(handler, table, i) {
            Some(entry) => entry,
            None => {
                assert(taken + here.visits =~= taken);
                return Ok(());
            },
        };
        if entry.is_present() {
            match walk_entry::<PTE, H>(
                handler,
                levels,
                level,
                start,
                limit,
                pre,
                post,
                strict,
                i,
                entry,
                visits,
            ) {
                Ok(_) => {},
                Err(err) => {
                    return Err(err);
                },
            }
            n = n + 1;
            proof {
                let rest = spec_walk::<PTE>(
                    frames,
                    levels,
                    table,
                    level,
                    start,
                    limit,
                    pre,
                    post,
                    strict,
                    (i + 1) as usize,
                    n,
                );
                assert(taken + here.visits =~= visits@ + rest.visits);
            }
        }
        i = i + 1;
    }
    proof {
        lemma_walk_step::<PTE>(frames, levels, table, level, start, limit, pre, post, strict, i, n);
        let rest = spec_walk::<PTE>(
            frames,
            levels,
            table,
            level,
            start,
            limit,
            pre,
            post,
            strict,
            i,
            n,
        );
        assert(visits@ + rest.visits =~= visits@);
    }
    Ok(())
}

} // verus!

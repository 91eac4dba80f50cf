//! Which of a module's effects the playback simulation honors.
use crate::formats::base::{occurrences, Cell, Module, ModuleView, Tally};
use crate::formats::counts::{lookup, put_count, sorted_keys};
use std::collections::BTreeMap;
use vstd::prelude::*;

verus! {

/// The Extended effects: their sub-commands are judged one by one.
pub const EXTENDED: u32 = 0xE;

/// The sub-commands of the Extended effects that are simulated.
pub open spec fn simulates_subcommand(code: u32) -> bool {
    let sub = code % 16;
    sub == 0x1 || sub == 0x2 || sub == 0x9 || sub == 0xA || sub == 0xB || sub == 0xC || sub == 0xD
}

fn is_simulated_subcommand(code: u32) -> (r: bool)
    ensures
        r == simulates_subcommand(code),
{
    let sub: u32 = code % 16;
    sub == 0x1 || sub == 0x2 || sub == 0x9 || sub == 0xA || sub == 0xB || sub == 0xC || sub == 0xD
}

/// The effects that are simulated: all of 0x0 to 0xF but Extended, and `extra`.
pub open spec fn simulates(code: u32, extra: Option<u32>) -> bool {
    (code <= 0xF && code != EXTENDED) || Some(code) == extra
}

/// The number that an effect report holds for a code: for an Exx sub-command (0xE0-0xEF) how
/// often it occurs, else how often the effect does, as far as it is simulated (or is not).
pub open spec fn reported(m: ModuleView, extra: Option<u32>, wanted: bool, code: u32) -> nat {
    let subs = occurrences(m.cells(), Tally::ExtendedSubcommands, code);
    let plain = occurrences(m.cells(), Tally::Effects, code);
    if subs > 0 && simulates_subcommand(code) == wanted {
        subs
    } else if code != EXTENDED && simulates(code, extra) == wanted {
        plain
    } else {
        0
    }
}

/// The map holds the codes with a number to report.
pub open spec fn is_report(
    r: Map<u32, u32>,
    m: ModuleView,
    extra: Option<u32>,
    wanted: bool,
) -> bool {
    forall|code: u32|
        #![trigger r.contains_key(code)]
        {
            &&& r.contains_key(code) <==> reported(m, extra, wanted, code) > 0
            &&& r.contains_key(code) ==> r[code] == reported(m, extra, wanted, code)
        }
}

/// The effects that are simulated (`wanted`), or those that are not, each counted.
pub fn effect_report(module: &Module, extra: Option<u32>, wanted: bool) -> (r: BTreeMap<u32, u32>)
    requires
        module@.cells().len() <= u32::MAX,
    ensures
        is_report(r@, module@, extra, wanted),
{
    let ghost m = module@;
    let plain: BTreeMap<u32, u32> = module.tally_cells(Tally::Effects);
    let subs: BTreeMap<u32, u32> = module.tally_cells(Tally::ExtendedSubcommands);
    let mut out: BTreeMap<u32, u32> = BTreeMap::new();
    let plain_codes: Vec<u32> = sorted_keys(&plain);
    let mut i: usize = 0;
    while i < plain_codes.len()
        invariant
            m == module@,
            i <= plain_codes.len(),
            crate::formats::base::is_tally(plain@, m.cells(), Tally::Effects),
            forall|k: u32| plain_codes@.contains(k) <==> plain@.contains_key(k),
            forall|code: u32| #[trigger]
                out@.contains_key(code) <==> plain_codes@.take(i as int).contains(code) && code
                    != EXTENDED && simulates(code, extra) == wanted,
            forall|code: u32| #[trigger]
                out@.contains_key(code) ==> out@[code] == occurrences(
                    m.cells(),
                    Tally::Effects,
                    code,
                ),
        decreases plain_codes.len() - i,
    {
        let code: u32 = plain_codes[i];
        proof {
            assert(plain_codes@.contains(code));
            assert forall|c: u32| #[trigger] plain_codes@.take(i + 1).contains(c)
                <==> plain_codes@.take(i as int).contains(c) || c == code by {
                lemma_take_contains(plain_codes@, i as int, c);
            }
        }
        let simulated: bool = (code <= 0xF && code != EXTENDED) || Some(code) == extra;
        if code != EXTENDED && simulated == wanted {
            put_count(&mut out, code, lookup(&plain, code));
        }
        i += 1;
    }
    assert(plain_codes@.take(i as int) =~= plain_codes@);
    let sub_codes: Vec<u32> = sorted_keys(&subs);
    let mut j: usize = 0;
    while j < sub_codes.len()
        invariant
            m == module@,
            j <= sub_codes.len(),
            crate::formats::base::is_tally(subs@, m.cells(), Tally::ExtendedSubcommands),
            forall|k: u32| sub_codes@.contains(k) <==> subs@.contains_key(k),
            forall|code: u32| #[trigger]
                out@.contains_key(code) <==> (sub_codes@.take(j as int).contains(code)
                    && simulates_subcommand(code) == wanted) || (occurrences(
                    m.cells(),
                    Tally::Effects,
                    code,
                ) > 0 && code != EXTENDED && simulates(code, extra) == wanted),
            forall|code: u32| #[trigger]
                out@.contains_key(code) ==> out@[code] == (if sub_codes@.take(j as int).contains(
                    code,
                ) && simulates_subcommand(code) == wanted {
                    occurrences(m.cells(), Tally::ExtendedSubcommands, code)
                } else {
                    occurrences(m.cells(), Tally::Effects, code)
                }),
        decreases sub_codes.len() - j,
    {
        let code: u32 = sub_codes[j];
        proof {
            assert(sub_codes@.contains(code));
            assert forall|c: u32| #[trigger] sub_codes@.take(j + 1).contains(c)
                <==> sub_codes@.take(j as int).contains(c) || c == code by {
                lemma_take_contains(sub_codes@, j as int, c);
            }
        }
        if is_simulated_subcommand(code) == wanted {
            put_count(&mut out, code, lookup(&subs, code));
        }
        j += 1;
    }
    assert(sub_codes@.take(j as int) =~= sub_codes@);
    out
}

proof fn lemma_take_contains(s: Seq<u32>, i: int, c: u32)
    requires
        0 <= i < s.len(),
    ensures
        s.take(i + 1).contains(c) <==> s.take(i).contains(c) || c == s[i],
{
    let long = s.take(i + 1);
    let short = s.take(i);
    if long.contains(c) {
        let k = choose|k: int| 0 <= k < long.len() && long[k] == c;
        if k < i {
            assert(short[k] == c);
        }
    }
    if short.contains(c) {
        let k = choose|k: int| 0 <= k < short.len() && short[k] == c;
        assert(long[k] == c);
    }
    assert(long[i] == s[i]);
}

/// Every effect that occurs is in exactly one of the two reports, with all its occurrences;
/// the Extended effects are there by their sub-commands.
pub proof fn law_reports_partition_effects(m: ModuleView, extra: Option<u32>, code: u32)
    requires
        occurrences(m.cells(), Tally::ExtendedSubcommands, code) == 0,
        code != EXTENDED,
    ensures
        reported(m, extra, true, code) + reported(m, extra, false, code) == occurrences(
            m.cells(),
            Tally::Effects,
            code,
        ),
        reported(m, extra, true, code) == 0 || reported(m, extra, false, code) == 0,
{
}

/// Extended itself is in neither report.
pub proof fn law_extended_is_reported_by_subcommand(m: ModuleView, extra: Option<u32>, wanted: bool)
    ensures
        reported(m, extra, wanted, EXTENDED) == 0,
{
    lemma_no_subcommand_below(m.cells(), EXTENDED);
}

proof fn lemma_no_subcommand_below(cells: Seq<Cell>, code: u32)
    requires
        code < 0xE0,
    ensures
        occurrences(cells, Tally::ExtendedSubcommands, code) == 0,
    decreases cells.len(),
{
    if cells.len() > 0 {
        lemma_no_subcommand_below(cells.drop_last(), code);
    }
}

/// The sum of the counts under the codes below `n`.
pub open spec fn total_below(r: Map<u32, u32>, n: int) -> int
    decreases n,
{
    if n <= 0 {
        0
    } else {
        total_below(r, n - 1) + if r.contains_key((n - 1) as u32) {
            r[(n - 1) as u32] as int
        } else {
            0
        }
    }
}

/// How many cells have an effect.
pub open spec fn effects_in(cells: Seq<Cell>) -> int
    decreases cells.len(),
{
    if cells.len() == 0 {
        0
    } else {
        effects_in(cells.drop_last()) + if Tally::Effects.key(cells.last()) is Some {
            1int
        } else {
            0
        }
    }
}

/// The effects of all cells are below the codes of the sub-commands.
pub open spec fn effects_are_known(cells: Seq<Cell>) -> bool {
    forall|i: int| 0 <= i < cells.len() ==> ((#[trigger] cells[i]).effect matches Some(e) ==> e < 0xE0)
}

/// Under which code a cell is reported, if it is.
spec fn reported_under(cell: Cell) -> Option<u32> {
    if cell.effect == Some(EXTENDED) {
        Tally::ExtendedSubcommands.key(cell)
    } else {
        Tally::Effects.key(cell)
    }
}

/// How many cells are reported under a code.
spec fn cells_under(cells: Seq<Cell>, code: u32) -> int {
    if code == EXTENDED {
        0
    } else if code < 0xE0 {
        occurrences(cells, Tally::Effects, code) as int
    } else {
        occurrences(cells, Tally::ExtendedSubcommands, code) as int
    }
}

spec fn cells_below(cells: Seq<Cell>, n: int) -> int
    decreases n,
{
    if n <= 0 {
        0
    } else {
        cells_below(cells, n - 1) + cells_under(cells, (n - 1) as u32)
    }
}

proof fn lemma_one_more(cells: Seq<Cell>, n: int)
    requires
        cells.len() > 0,
        effects_are_known(cells),
        0 <= n <= 0xF0,
    ensures
        cells_below(cells, n) == cells_below(cells.drop_last(), n) + (match reported_under(
            cells.last(),
        ) {
            Some(code) => if code < n {
                1int
            } else {
                0
            },
            None => 0,
        }),
    decreases n,
{
    if n > 0 {
        lemma_one_more(cells, n - 1);
        assert(cells.last() == cells[cells.len() - 1]);
    }
}

proof fn lemma_none_below(n: int)
    ensures
        cells_below(Seq::empty(), n) == 0,
    decreases n,
{
    if n > 0 {
        lemma_none_below(n - 1);
    }
}

proof fn lemma_every_cell_once(cells: Seq<Cell>)
    requires
        effects_are_known(cells),
    ensures
        cells_below(cells, 0xF0) == effects_in(cells),
    decreases cells.len(),
{
    if cells.len() == 0 {
        assert(cells =~= Seq::<Cell>::empty());
        lemma_none_below(0xF0);
    } else {
        assert forall|i: int| 0 <= i < cells.drop_last().len() implies ((
        #[trigger] cells.drop_last()[i]).effect matches Some(e) ==> e < 0xE0) by {
            assert(cells[i] == cells.drop_last()[i]);
        }
        lemma_every_cell_once(cells.drop_last());
        lemma_one_more(cells, 0xF0);
        assert(cells.last() == cells[cells.len() - 1]);
    }
}

proof fn lemma_plain_below(cells: Seq<Cell>, code: u32)
    requires
        effects_are_known(cells),
        code >= 0xE0,
    ensures
        occurrences(cells, Tally::Effects, code) == 0,
        code >= 0xF0 ==> occurrences(cells, Tally::ExtendedSubcommands, code) == 0,
    decreases cells.len(),
{
    if cells.len() > 0 {
        assert forall|i: int| 0 <= i < cells.drop_last().len() implies ((
        #[trigger] cells.drop_last()[i]).effect matches Some(e) ==> e < 0xE0) by {
            assert(cells[i] == cells.drop_last()[i]);
        }
        lemma_plain_below(cells.drop_last(), code);
        assert(cells.last() == cells[cells.len() - 1]);
    }
}

proof fn lemma_reports_at(m: ModuleView, extra: Option<u32>, code: u32)
    requires
        effects_are_known(m.cells()),
        code < 0xF0,
    ensures
        reported(m, extra, true, code) + reported(m, extra, false, code) == cells_under(
            m.cells(),
            code,
        ),
        reported(m, extra, true, code) == 0 || reported(m, extra, false, code) == 0,
{
    if code < 0xE0 {
        lemma_no_subcommand_below(m.cells(), code);
    } else {
        lemma_plain_below(m.cells(), code);
    }
}

proof fn lemma_totals(
    m: ModuleView,
    extra: Option<u32>,
    done: Map<u32, u32>,
    ignored: Map<u32, u32>,
    n: int,
)
    requires
        is_report(done, m, extra, true),
        is_report(ignored, m, extra, false),
        effects_are_known(m.cells()),
        0 <= n <= 0xF0,
    ensures
        total_below(done, n) + total_below(ignored, n) == cells_below(m.cells(), n),
    decreases n,
{
    if n > 0 {
        let code = (n - 1) as u32;
        lemma_totals(m, extra, done, ignored, n - 1);
        lemma_reports_at(m, extra, code);
        assert(done.contains_key(code) <==> reported(m, extra, true, code) > 0);
        assert(ignored.contains_key(code) <==> reported(m, extra, false, code) > 0);
    }
}

/// The two reports of a module together count every cell that has an effect, once: no code is in
/// both of them, none is beyond the sub-commands', Extended itself is in neither, each of its
/// sub-commands is in one of them with all its cells, and the sum of all counts is the number of
/// cells with an effect.
pub proof fn law_reports_count_every_cell(
    m: ModuleView,
    extra: Option<u32>,
    done: Map<u32, u32>,
    ignored: Map<u32, u32>,
)
    requires
        is_report(done, m, extra, true),
        is_report(ignored, m, extra, false),
        effects_are_known(m.cells()),
    ensures
        forall|code: u32| #[trigger]
            done.contains_key(code) ==> code < 0xF0 && code != EXTENDED && !ignored.contains_key(code),
        forall|code: u32| #[trigger]
            ignored.contains_key(code) ==> code < 0xF0 && code != EXTENDED && !done.contains_key(
                code,
            ),
        forall|code: u32|
            0xE0 <= code < 0xF0 && #[trigger] occurrences(
                m.cells(),
                Tally::ExtendedSubcommands,
                code,
            ) > 0 ==> (if simulates_subcommand(code) {
                done.contains_key(code) && done[code] == occurrences(
                    m.cells(),
                    Tally::ExtendedSubcommands,
                    code,
                )
            } else {
                ignored.contains_key(code) && ignored[code] == occurrences(
                    m.cells(),
                    Tally::ExtendedSubcommands,
                    code,
                )
            }),
        total_below(done, 0xF0) + total_below(ignored, 0xF0) == effects_in(m.cells()),
{
    assert forall|code: u32| #[trigger] done.contains_key(code) implies code < 0xF0 && code
        != EXTENDED && !ignored.contains_key(code) by {
        if code >= 0xE0 {
            lemma_plain_below(m.cells(), code);
        }
        law_extended_is_reported_by_subcommand(m, extra, true);
        if code < 0xF0 {
            lemma_reports_at(m, extra, code);
        }
    }
    assert forall|code: u32| #[trigger] ignored.contains_key(code) implies code < 0xF0 && code
        != EXTENDED && !done.contains_key(code) by {
        if code >= 0xE0 {
            lemma_plain_below(m.cells(), code);
        }
        law_extended_is_reported_by_subcommand(m, extra, false);
        if code < 0xF0 {
            lemma_reports_at(m, extra, code);
        }
    }
    assert forall|code: u32|
        0xE0 <= code < 0xF0 && #[trigger] occurrences(m.cells(), Tally::ExtendedSubcommands, code)
            > 0 implies (if simulates_subcommand(code) {
        done.contains_key(code) && done[code] == occurrences(
            m.cells(),
            Tally::ExtendedSubcommands,
            code,
        )
    } else {
        ignored.contains_key(code) && ignored[code] == occurrences(
            m.cells(),
            Tally::ExtendedSubcommands,
            code,
        )
    }) by {
        assert(done.contains_key(code) <==> reported(m, extra, true, code) > 0);
        assert(ignored.contains_key(code) <==> reported(m, extra, false, code) > 0);
    }
    lemma_totals(m, extra, done, ignored, 0xF0);
    lemma_every_cell_once(m.cells());
}

} // verus!

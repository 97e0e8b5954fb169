//! The fidelity gate and its checkers: configurable minimum-dances
//! lookup, round completeness, cross-round progression, and the
//! accept/reject verdict over a whole competition.

use vstd::prelude::*;
use crate::models::{Competition, Dance, Date, Event, Judge, Level, MarkingCell, PlacementCell, Round, RoundData, ScoreCell};
use crate::skating::score_math_ok;
use crate::text::str_eq;

verus! {

/// Per-level minimum-dances configuration: an unconditional override,
/// and the pre-2026 and from-2026 values of the date-dependent rule.
#[derive(Clone, Copy, Debug, PartialEq, Eq, Structural)]
pub struct LevelConfig {
    pub min_dances: Option<u32>,
    pub min_dances_legacy: Option<u32>,
    pub min_dances_2026: Option<u32>,
}

impl LevelConfig {
    /// The minimum dance count this configuration yields for a
    /// competition held in `year`: the unconditional value if set,
    /// otherwise the from-2026 value (falling back to the legacy value)
    /// for 2026 and later, otherwise the legacy value, otherwise 0.
    pub open spec fn spec_min_dances(self, year: int) -> u32 {
        match self.min_dances {
            Some(n) => n,
            None => if year >= 2026 {
                match self.min_dances_2026 {
                    Some(n) => n,
                    None => match self.min_dances_legacy {
                        Some(n) => n,
                        None => 0,
                    },
                }
            } else {
                match self.min_dances_legacy {
                    Some(n) => n,
                    None => 0,
                }
            },
        }
    }

    /// The minimum dance count for a competition held on `date`.
    pub fn get_min_dances(&self, date: &Date) -> (n: u32)
        ensures
            n == self.spec_min_dances(date.year as int),
    {
        if let Some(min) = self.min_dances {
            return min;
        }
        let is_2026_or_later = date.year >= 2026;
        if is_2026_or_later {
            match self.min_dances_2026 {
                Some(n) => n,
                None => match self.min_dances_legacy {
                    Some(n) => n,
                    None => 0,
                },
            }
        } else {
            match self.min_dances_legacy {
                Some(n) => n,
                None => 0,
            }
        }
    }
}

/// The configuration key under which a level's minimum-dances entry is
/// looked up.
pub open spec fn spec_level_key(level: Level) -> Seq<char> {
    match level {
        Level::E => "E"@,
        Level::D => "D"@,
        Level::C => "C"@,
        Level::B => "B"@,
        Level::A => "A"@,
        Level::S => "S"@,
    }
}

/// The configuration key of a level.
pub fn level_key(level: &Level) -> (s: &'static str)
    ensures
        s@ == spec_level_key(*level),
{
    match level {
        Level::E => "E",
        Level::D => "D",
        Level::C => "C",
        Level::B => "B",
        Level::A => "A",
        Level::S => "S",
    }
}

/// The first configuration entry whose key equals `key`, if any.
pub open spec fn spec_lookup_level(
    entries: Seq<(String, LevelConfig)>,
    key: Seq<char>,
) -> Option<LevelConfig>
    decreases entries.len(),
{
    if entries.len() == 0 {
        None
    } else if entries[0].0@ == key {
        Some(entries[0].1)
    } else {
        spec_lookup_level(entries.drop_first(), key)
    }
}

/// The minimum dance count the configured table yields for `level` in
/// `year`: 0 when no table or no entry for the level is present.
pub open spec fn spec_config_min_dances(
    levels: Option<Seq<(String, LevelConfig)>>,
    level: Level,
    year: int,
) -> u32 {
    match levels {
        None => 0,
        Some(entries) => match spec_lookup_level(entries, spec_level_key(level)) {
            None => 0,
            Some(config) => config.spec_min_dances(year),
        },
    }
}

/// Looks up the minimum dance count for `level` on `date` in an
/// optional per-level configuration table; 0 when the table has no
/// entry for the level.
#[verifier::loop_isolation(false)]
pub fn get_min_dances_for_level(
    levels: &Option<Vec<(String, LevelConfig)>>,
    level: &Level,
    date: &Date,
) -> (n: u32)
    ensures
        n == spec_config_min_dances(
            match levels {
                Some(v) => Some(v@),
                None => None,
            },
            *level,
            date.year as int,
        ),
{
    let key = level_key(level);
    if let Some(entries) = levels {
        let len = entries.len();
        proof {
            assert(entries@.skip(0) =~= entries@);
        }
        let mut i: usize = 0;
        while i < len
            invariant
                len == entries@.len(),
                i <= len,
                spec_lookup_level(entries@, key@) == spec_lookup_level(
                    entries@.skip(i as int),
                    key@,
                ),
            decreases len - i,
        {
            proof {
                assert(entries@.skip(i as int)[0] == entries@[i as int]);
            }
            if crate::text::str_eq(entries[i].0.as_str(), key) {
                proof {
                    let sk = entries@.skip(i as int);
                    assert(sk.len() > 0);
                    assert(sk[0] == entries@[i as int]);
                    assert(spec_lookup_level(sk, key@) == Some(sk[0].1));
                }
                return entries[i].1.get_min_dances(date);
            }
            proof {
                assert(entries@.skip(i as int).drop_first() =~= entries@.skip(i + 1));
            }
            i += 1;
        }
        proof {
            assert(entries@.skip(len as int).len() == 0);
        }
        0
    } else {
        0
    }
}


/// One of the closed set of reasons the fidelity gate can reject a
/// competition for.
#[derive(Clone, Debug)]
pub enum RejectionReason {
    /// Fewer than three judges on the officiating roster.
    InsufficientOfficials,
    /// No participants.
    EmptyParticipants,
    /// No rounds.
    EmptyRounds,
    /// Fewer contested dances than the minimum-dances policy requires.
    BelowMinimumDances,
    /// The last round carries only qualification marks.
    MissingFinalAnchor,
    /// A judge, participant or dance cell is missing from the round.
    IncompleteRound { round: usize },
    /// A reported WDSF total disagrees with its category scores.
    ScoreMathMismatch { round: usize, judge: String, bib: u32 },
    /// A starting number appears in a round without being present in
    /// the first round.
    ParticipantTeleported { bib: u32 },
    /// A round's participants are no subset of the previous round's.
    ProgressionViolation { round: usize },
    /// A declared final rank implies presence in a round the
    /// participant is absent from.
    RankInconsistentWithFinalRank { bib: u32 },
    /// A declared final rank disagrees with the rank recomputed from
    /// the raw placements of the last round.
    ScrutineeringMismatch { bib: u32, expected: u32, recomputed: u32 },
}

/// The fidelity gate's verdict over one competition.
#[derive(Clone, Debug)]
pub enum Verdict {
    Accepted,
    Rejected(Vec<RejectionReason>),
}

/// The starting numbers of the first `t` marking cells, in order of
/// first appearance.
pub open spec fn bib_list_marking(cells: Seq<MarkingCell>, t: int) -> Seq<u32>
    decreases t,
{
    if t <= 0 {
        Seq::empty()
    } else {
        let prev = bib_list_marking(cells, t - 1);
        if prev.contains(cells[t - 1].bib) {
            prev
        } else {
            prev.push(cells[t - 1].bib)
        }
    }
}

/// The starting numbers of the first `t` placement cells, in order of
/// first appearance.
pub open spec fn bib_list_dtv(cells: Seq<PlacementCell>, t: int) -> Seq<u32>
    decreases t,
{
    if t <= 0 {
        Seq::empty()
    } else {
        let prev = bib_list_dtv(cells, t - 1);
        if prev.contains(cells[t - 1].bib) {
            prev
        } else {
            prev.push(cells[t - 1].bib)
        }
    }
}

/// The starting numbers of the first `t` score cells, in order of
/// first appearance.
pub open spec fn bib_list_wdsf(cells: Seq<ScoreCell>, t: int) -> Seq<u32>
    decreases t,
{
    if t <= 0 {
        Seq::empty()
    } else {
        let prev = bib_list_wdsf(cells, t - 1);
        if prev.contains(cells[t - 1].bib) {
            prev
        } else {
            prev.push(cells[t - 1].bib)
        }
    }
}

/// The starting numbers observed in a round's data, in order of first
/// appearance and without repetition.
pub open spec fn spec_round_bibs(rd: RoundData) -> Seq<u32> {
    match rd {
        RoundData::Marking(cells) => bib_list_marking(cells@, cells@.len() as int),
        RoundData::Dtv(cells) => bib_list_dtv(cells@, cells@.len() as int),
        RoundData::Wdsf(cells) => bib_list_wdsf(cells@, cells@.len() as int),
    }
}

/// A marking cell for the judge, entrant and dance exists.
pub open spec fn has_marking_cell(
    cells: Seq<MarkingCell>,
    code: Seq<char>,
    bib: u32,
    dance: Dance,
) -> bool {
    exists|t: int|
        0 <= t < cells.len() && (#[trigger] cells[t]).judge@ == code && cells[t].bib == bib
            && cells[t].dance == dance
}

/// A placement cell for the judge, entrant and dance exists.
pub open spec fn has_dtv_cell(
    cells: Seq<PlacementCell>,
    code: Seq<char>,
    bib: u32,
    dance: Dance,
) -> bool {
    exists|t: int|
        0 <= t < cells.len() && (#[trigger] cells[t]).judge@ == code && cells[t].bib == bib
            && cells[t].dance == dance
}

/// A score cell for the judge and entrant exists.
pub open spec fn has_wdsf_cell(cells: Seq<ScoreCell>, code: Seq<char>, bib: u32) -> bool {
    exists|t: int|
        0 <= t < cells.len() && (#[trigger] cells[t]).judge@ == code && cells[t].bib == bib
}

/// The round's data covers every judge of the roster for every
/// observed entrant — per contested dance for marking and placement
/// data, once per entrant for WDSF score records — and the round is
/// not empty.
/// Every roster judge covers every observed entrant in every
/// contested dance with a qualification mark.
pub open spec fn marking_covered(
    cells: Seq<MarkingCell>,
    judges: Seq<Judge>,
    parts: Seq<u32>,
    dances: Seq<Dance>,
) -> bool {
    forall|j: int, b: int, d: int|
        0 <= j < judges.len() && 0 <= b < parts.len() && 0 <= d < dances.len()
            ==> has_marking_cell(cells, (#[trigger] judges[j]).code@, #[trigger] parts[b], #[trigger] dances[d])
}

/// Every roster judge covers every observed entrant in every
/// contested dance with a placement.
pub open spec fn dtv_covered(
    cells: Seq<PlacementCell>,
    judges: Seq<Judge>,
    parts: Seq<u32>,
    dances: Seq<Dance>,
) -> bool {
    forall|j: int, b: int, d: int|
        0 <= j < judges.len() && 0 <= b < parts.len() && 0 <= d < dances.len()
            ==> has_dtv_cell(cells, (#[trigger] judges[j]).code@, #[trigger] parts[b], #[trigger] dances[d])
}

/// Every roster judge covers every observed entrant with one score
/// record.
pub open spec fn wdsf_covered(cells: Seq<ScoreCell>, judges: Seq<Judge>, parts: Seq<u32>) -> bool {
    forall|j: int, b: int|
        0 <= j < judges.len() && 0 <= b < parts.len() ==> has_wdsf_cell(
            cells,
            (#[trigger] judges[j]).code@,
            #[trigger] parts[b],
        )
}

pub open spec fn spec_round_complete(
    rd: RoundData,
    judges: Seq<Judge>,
    parts: Seq<u32>,
    dances: Seq<Dance>,
) -> bool {
    &&& parts.len() > 0
    &&& match rd {
        RoundData::Marking(cells) => marking_covered(cells@, judges, parts, dances),
        RoundData::Dtv(cells) => dtv_covered(cells@, judges, parts, dances),
        RoundData::Wdsf(cells) => wdsf_covered(cells@, judges, parts),
    }
}

/// Whether the list holds the value.
fn vec_contains_u32(v: &Vec<u32>, x: u32) -> (b: bool)
    ensures
        b == v@.contains(x),
{
    let len = v.len();
    let mut i: usize = 0;
    while i < len
        invariant
            len == v@.len(),
            i <= len,
            forall|t: int| 0 <= t < i ==> v@[t] != x,
        decreases len - i,
    {
        if v[i] == x {
            return true;
        }
        i += 1;
    }
    false
}

/// The starting numbers observed in the round, in order of first
/// appearance and without repetition.
pub fn round_participants(round: &Round) -> (v: Vec<u32>)
    ensures
        v@ == spec_round_bibs(round.data),
{
    let mut v: Vec<u32> = Vec::new();
    match &round.data {
        RoundData::Marking(cells) => {
            let len = cells.len();
            let mut t: usize = 0;
            while t < len
                invariant
                    len == cells@.len(),
                    t <= len,
                    v@ == bib_list_marking(cells@, t as int),
                decreases len - t,
            {
                if !vec_contains_u32(&v, cells[t].bib) {
                    v.push(cells[t].bib);
                }
                t += 1;
            }
        },
        RoundData::Dtv(cells) => {
            let len = cells.len();
            let mut t: usize = 0;
            while t < len
                invariant
                    len == cells@.len(),
                    t <= len,
                    v@ == bib_list_dtv(cells@, t as int),
                decreases len - t,
            {
                if !vec_contains_u32(&v, cells[t].bib) {
                    v.push(cells[t].bib);
                }
                t += 1;
            }
        },
        RoundData::Wdsf(cells) => {
            let len = cells.len();
            let mut t: usize = 0;
            while t < len
                invariant
                    len == cells@.len(),
                    t <= len,
                    v@ == bib_list_wdsf(cells@, t as int),
                decreases len - t,
            {
                if !vec_contains_u32(&v, cells[t].bib) {
                    v.push(cells[t].bib);
                }
                t += 1;
            }
        },
    }
    v
}

/// Searches marking cells for the judge, entrant and dance.
fn find_marking_cell(cells: &Vec<MarkingCell>, code: &str, bib: u32, dance: Dance) -> (b: bool)
    ensures
        b == has_marking_cell(cells@, code@, bib, dance),
{
    let len = cells.len();
    let mut t: usize = 0;
    while t < len
        invariant
            len == cells@.len(),
            t <= len,
            forall|q: int|
                0 <= q < t ==> !((#[trigger] cells@[q]).judge@ == code@ && cells@[q].bib == bib
                    && cells@[q].dance == dance),
        decreases len - t,
    {
        if str_eq(cells[t].judge.as_str(), code) && cells[t].bib == bib && cells[t].dance
            == dance {
            return true;
        }
        t += 1;
    }
    false
}

/// Searches placement cells for the judge, entrant and dance.
fn find_dtv_cell(cells: &Vec<PlacementCell>, code: &str, bib: u32, dance: Dance) -> (b: bool)
    ensures
        b == has_dtv_cell(cells@, code@, bib, dance),
{
    let len = cells.len();
    let mut t: usize = 0;
    while t < len
        invariant
            len == cells@.len(),
            t <= len,
            forall|q: int|
                0 <= q < t ==> !((#[trigger] cells@[q]).judge@ == code@ && cells@[q].bib == bib
                    && cells@[q].dance == dance),
        decreases len - t,
    {
        if str_eq(cells[t].judge.as_str(), code) && cells[t].bib == bib && cells[t].dance
            == dance {
            return true;
        }
        t += 1;
    }
    false
}

/// Searches score cells for the judge and entrant.
fn find_wdsf_cell(cells: &Vec<ScoreCell>, code: &str, bib: u32) -> (b: bool)
    ensures
        b == has_wdsf_cell(cells@, code@, bib),
{
    let len = cells.len();
    let mut t: usize = 0;
    while t < len
        invariant
            len == cells@.len(),
            t <= len,
            forall|q: int|
                0 <= q < t ==> !((#[trigger] cells@[q]).judge@ == code@ && cells@[q].bib == bib),
        decreases len - t,
    {
        if str_eq(cells[t].judge.as_str(), code) && cells[t].bib == bib {
            return true;
        }
        t += 1;
    }
    false
}

/// Checks that all expected data is present in the round: every judge
/// of the roster covers every observed entrant, per contested dance
/// for marking and placement rounds, once per entrant for WDSF rounds.
#[verifier::loop_isolation(false)]
pub fn is_round_complete(
    round: &Round,
    expected_judges: &Vec<Judge>,
    participants: &Vec<u32>,
    dances: &Vec<Dance>,
) -> (b: bool)
    ensures
        b == spec_round_complete(round.data, expected_judges@, participants@, dances@),
{
    if participants.len() == 0 {
        return false;
    }
    let jn = expected_judges.len();
    let pn = participants.len();
    let dn = dances.len();
    match &round.data {
        RoundData::Marking(cells) => {
            let mut j: usize = 0;
            while j < jn
                invariant
                    jn == expected_judges@.len(),
                    pn == participants@.len(),
                    dn == dances@.len(),
                    j <= jn,
                    forall|q: int, b: int, d: int|
                        0 <= q < j && 0 <= b < pn && 0 <= d < dn ==> has_marking_cell(
                            cells@,
                            (#[trigger] expected_judges@[q]).code@,
                            #[trigger] participants@[b],
                            #[trigger] dances@[d],
                        ),
                decreases jn - j,
            {
                let mut b: usize = 0;
                while b < pn
                    invariant
                        jn == expected_judges@.len(),
                        pn == participants@.len(),
                        dn == dances@.len(),
                        j < jn,
                        b <= pn,
                        forall|q: int, b2: int, d: int|
                            0 <= q < j && 0 <= b2 < pn && 0 <= d < dn ==> has_marking_cell(
                                cells@,
                                (#[trigger] expected_judges@[q]).code@,
                                #[trigger] participants@[b2],
                                #[trigger] dances@[d],
                            ),
                        forall|b2: int, d: int|
                            0 <= b2 < b && 0 <= d < dn ==> has_marking_cell(
                                cells@,
                                expected_judges@[j as int].code@,
                                #[trigger] participants@[b2],
                                #[trigger] dances@[d],
                            ),
                    decreases pn - b,
                {
                    let mut d: usize = 0;
                    while d < dn
                        invariant
                            jn == expected_judges@.len(),
                            pn == participants@.len(),
                            dn == dances@.len(),
                            j < jn,
                            b < pn,
                            d <= dn,
                            forall|d2: int|
                                0 <= d2 < d ==> has_marking_cell(
                                    cells@,
                                    expected_judges@[j as int].code@,
                                    participants@[b as int],
                                    #[trigger] dances@[d2],
                                ),
                        decreases dn - d,
                    {
                        if !find_marking_cell(
                            cells,
                            expected_judges[j].code.as_str(),
                            participants[b],
                            dances[d],
                        ) {
                            proof {
                                assert(!spec_round_complete(
                                    round.data,
                                    expected_judges@,
                                    participants@,
                                    dances@,
                                )) by {
                                    if spec_round_complete(
                                        round.data,
                                        expected_judges@,
                                        participants@,
                                        dances@,
                                    ) {
                                        assert(has_marking_cell(
                                            cells@,
                                            expected_judges@[j as int].code@,
                                            participants@[b as int],
                                            dances@[d as int],
                                        ));
                                    }
                                }
                            }
                            return false;
                        }
                        d += 1;
                    }
                    b += 1;
                }
                j += 1;
            }
            true
        },
        RoundData::Dtv(cells) => {
            let mut j: usize = 0;
            while j < jn
                invariant
                    jn == expected_judges@.len(),
                    pn == participants@.len(),
                    dn == dances@.len(),
                    j <= jn,
                    forall|q: int, b: int, d: int|
                        0 <= q < j && 0 <= b < pn && 0 <= d < dn ==> has_dtv_cell(
                            cells@,
                            (#[trigger] expected_judges@[q]).code@,
                            #[trigger] participants@[b],
                            #[trigger] dances@[d],
                        ),
                decreases jn - j,
            {
                let mut b: usize = 0;
                while b < pn
                    invariant
                        jn == expected_judges@.len(),
                        pn == participants@.len(),
                        dn == dances@.len(),
                        j < jn,
                        b <= pn,
                        forall|q: int, b2: int, d: int|
                            0 <= q < j && 0 <= b2 < pn && 0 <= d < dn ==> has_dtv_cell(
                                cells@,
                                (#[trigger] expected_judges@[q]).code@,
                                #[trigger] participants@[b2],
                                #[trigger] dances@[d],
                            ),
                        forall|b2: int, d: int|
                            0 <= b2 < b && 0 <= d < dn ==> has_dtv_cell(
                                cells@,
                                expected_judges@[j as int].code@,
                                #[trigger] participants@[b2],
                                #[trigger] dances@[d],
                            ),
                    decreases pn - b,
                {
                    let mut d: usize = 0;
                    while d < dn
                        invariant
                            jn == expected_judges@.len(),
                            pn == participants@.len(),
                            dn == dances@.len(),
                            j < jn,
                            b < pn,
                            d <= dn,
                            forall|d2: int|
                                0 <= d2 < d ==> has_dtv_cell(
                                    cells@,
                                    expected_judges@[j as int].code@,
                                    participants@[b as int],
                                    #[trigger] dances@[d2],
                                ),
                        decreases dn - d,
                    {
                        if !find_dtv_cell(
                            cells,
                            expected_judges[j].code.as_str(),
                            participants[b],
                            dances[d],
                        ) {
                            proof {
                                assert(!spec_round_complete(
                                    round.data,
                                    expected_judges@,
                                    participants@,
                                    dances@,
                                )) by {
                                    if spec_round_complete(
                                        round.data,
                                        expected_judges@,
                                        participants@,
                                        dances@,
                                    ) {
                                        assert(has_dtv_cell(
                                            cells@,
                                            expected_judges@[j as int].code@,
                                            participants@[b as int],
                                            dances@[d as int],
                                        ));
                                    }
                                }
                            }
                            return false;
                        }
                        d += 1;
                    }
                    b += 1;
                }
                j += 1;
            }
            true
        },
        RoundData::Wdsf(cells) => {
            let mut j: usize = 0;
            while j < jn
                invariant
                    jn == expected_judges@.len(),
                    pn == participants@.len(),
                    j <= jn,
                    forall|q: int, b: int|
                        0 <= q < j && 0 <= b < pn ==> has_wdsf_cell(
                            cells@,
                            (#[trigger] expected_judges@[q]).code@,
                            #[trigger] participants@[b],
                        ),
                decreases jn - j,
            {
                let mut b: usize = 0;
                while b < pn
                    invariant
                        jn == expected_judges@.len(),
                        pn == participants@.len(),
                        j < jn,
                        b <= pn,
                        forall|q: int, b2: int|
                            0 <= q < j && 0 <= b2 < pn ==> has_wdsf_cell(
                                cells@,
                                (#[trigger] expected_judges@[q]).code@,
                                #[trigger] participants@[b2],
                            ),
                        forall|b2: int|
                            0 <= b2 < b ==> has_wdsf_cell(
                                cells@,
                                expected_judges@[j as int].code@,
                                #[trigger] participants@[b2],
                            ),
                    decreases pn - b,
                {
                    if !find_wdsf_cell(cells, expected_judges[j].code.as_str(), participants[b]) {
                        proof {
                            assert(!spec_round_complete(
                                round.data,
                                expected_judges@,
                                participants@,
                                dances@,
                            )) by {
                                if spec_round_complete(
                                    round.data,
                                    expected_judges@,
                                    participants@,
                                    dances@,
                                ) {
                                    assert(has_wdsf_cell(
                                        cells@,
                                        expected_judges@[j as int].code@,
                                        participants@[b as int],
                                    ));
                                }
                            }
                        }
                        return false;
                    }
                    b += 1;
                }
                j += 1;
            }
            true
        },
    }
}


/// Score-math rejections among the first `t` score cells of round
/// `round`, in cell order.
pub open spec fn spec_score_reasons(cells: Seq<ScoreCell>, round: usize, t: int) -> Seq<
    RejectionReason,
>
    decreases t,
{
    if t <= 0 {
        Seq::empty()
    } else {
        spec_score_reasons(cells, round, t - 1) + (if !score_math_ok(cells[t - 1].score) {
            seq![
                RejectionReason::ScoreMathMismatch {
                    round,
                    judge: cells[t - 1].judge,
                    bib: cells[t - 1].bib,
                },
            ]
        } else {
            Seq::empty()
        })
    }
}

/// Appends one score-math rejection for every score record of the
/// round whose reported total disagrees with its category scores.
fn push_score_mismatches(cells: &Vec<ScoreCell>, round: usize, reasons: &mut Vec<RejectionReason>)
    ensures
        final(reasons)@ == old(reasons)@ + spec_score_reasons(cells@, round, cells@.len() as int),
{
    let len = cells.len();
    let mut t: usize = 0;
    proof {
        assert(reasons@ =~= old(reasons)@ + spec_score_reasons(cells@, round, 0));
    }
    while t < len
        invariant
            len == cells@.len(),
            t <= len,
            reasons@ == old(reasons)@ + spec_score_reasons(cells@, round, t as int),
        decreases len - t,
    {
        if !crate::skating::verify_wdsf_score(&cells[t].score) {
            let reason = RejectionReason::ScoreMathMismatch {
                round,
                judge: cells[t].judge.clone(),
                bib: cells[t].bib,
            };
            reasons.push(reason);
            proof {
                assert(reasons@ =~= old(reasons)@ + spec_score_reasons(
                    cells@,
                    round,
                    t as int + 1,
                ));
            }
        } else {
            proof {
                assert(reasons@ =~= old(reasons)@ + spec_score_reasons(
                    cells@,
                    round,
                    t as int + 1,
                ));
            }
        }
        t += 1;
    }
}

/// Teleport rejections among the first `t` entrants of a round's
/// participant list: one for every entrant absent from the first
/// round.
pub open spec fn spec_teleport_reasons(list_i: Seq<u32>, list0: Seq<u32>, t: int) -> Seq<
    RejectionReason,
>
    decreases t,
{
    if t <= 0 {
        Seq::empty()
    } else {
        spec_teleport_reasons(list_i, list0, t - 1) + (if !list0.contains(list_i[t - 1]) {
            seq![RejectionReason::ParticipantTeleported { bib: list_i[t - 1] }]
        } else {
            Seq::empty()
        })
    }
}

/// Every entrant of `a` also appears in `b`.
pub open spec fn spec_list_subset(a: Seq<u32>, b: Seq<u32>) -> bool {
    forall|t: int| 0 <= t < a.len() ==> b.contains(#[trigger] a[t])
}

/// Whether every entrant of `a` also appears in `b`.
fn list_subset(a: &Vec<u32>, b: &Vec<u32>) -> (r: bool)
    ensures
        r == spec_list_subset(a@, b@),
{
    let len = a.len();
    let mut t: usize = 0;
    while t < len
        invariant
            len == a@.len(),
            t <= len,
            forall|q: int| 0 <= q < t ==> b@.contains(#[trigger] a@[q]),
        decreases len - t,
    {
        if !vec_contains_u32(b, a[t]) {
            proof {
                assert(!spec_list_subset(a@, b@)) by {
                    if spec_list_subset(a@, b@) {
                        assert(b@.contains(a@[t as int]));
                    }
                }
            }
            return false;
        }
        t += 1;
    }
    true
}

/// Appends one teleport rejection for every entrant of the round
/// absent from the first round.
fn push_teleport_reasons(list_i: &Vec<u32>, list0: &Vec<u32>, reasons: &mut Vec<RejectionReason>)
    ensures
        final(reasons)@ == old(reasons)@ + spec_teleport_reasons(list_i@, list0@, list_i@.len() as int),
{
    let len = list_i.len();
    let mut t: usize = 0;
    proof {
        assert(reasons@ =~= old(reasons)@ + spec_teleport_reasons(list_i@, list0@, 0));
    }
    while t < len
        invariant
            len == list_i@.len(),
            t <= len,
            reasons@ == old(reasons)@ + spec_teleport_reasons(list_i@, list0@, t as int),
        decreases len - t,
    {
        if !vec_contains_u32(list0, list_i[t]) {
            reasons.push(RejectionReason::ParticipantTeleported { bib: list_i[t] });
        }
        proof {
            assert(reasons@ =~= old(reasons)@ + spec_teleport_reasons(
                list_i@,
                list0@,
                t as int + 1,
            ));
        }
        t += 1;
    }
}


/// Every cell table of the competition is small enough for 32-bit
/// rank arithmetic: panel, dance list and per-round cell counts all
/// fit, with cell counts strictly below the largest 32-bit value so
/// that a place counter always fits.
pub open spec fn spec_sizes_ok(c: Competition) -> bool {
    &&& c.officials.judges@.len() <= u32::MAX
    &&& c.dances@.len() <= u32::MAX
    &&& forall|i: int|
        0 <= i < c.rounds@.len() ==> match (#[trigger] c.rounds@[i]).data {
            RoundData::Marking(cells) => cells@.len() < u32::MAX,
            RoundData::Dtv(cells) => cells@.len() < u32::MAX,
            RoundData::Wdsf(cells) => cells@.len() < u32::MAX,
        }
}

/// A placement participant list is never longer than its cell list
/// and holds no starting number twice.
pub proof fn lemma_bib_list_dtv_distinct(cells: Seq<PlacementCell>, t: int)
    requires
        t >= 0,
    ensures
        bib_list_dtv(cells, t).len() <= t,
        forall|q1: int, q2: int|
            0 <= q1 < q2 < bib_list_dtv(cells, t).len() ==> bib_list_dtv(cells, t)[q1]
                != bib_list_dtv(cells, t)[q2],
    decreases t,
{
    if t > 0 {
        lemma_bib_list_dtv_distinct(cells, t - 1);
        let prev = bib_list_dtv(cells, t - 1);
        let cur = bib_list_dtv(cells, t);
        if !prev.contains(cells[t - 1].bib) {
            assert forall|q1: int, q2: int| 0 <= q1 < q2 < cur.len() implies cur[q1]
                != cur[q2] by {
                if q2 == cur.len() - 1 {
                    assert(prev[q1] == cur[q1]);
                    if cur[q1] == cells[t - 1].bib {
                        assert(prev.contains(cells[t - 1].bib));
                    }
                }
            }
        }
    }
}

/// The placement the judge with code `code` gave `bib` in `d`: the
/// value of the first matching cell, 0 when none exists.
pub open spec fn spec_placement(
    cells: Seq<PlacementCell>,
    code: Seq<char>,
    bib: u32,
    d: Dance,
) -> u32
    decreases cells.len(),
{
    if cells.len() == 0 {
        0
    } else if cells[0].judge@ == code && cells[0].bib == bib && cells[0].dance == d {
        cells[0].placement
    } else {
        spec_placement(cells.drop_first(), code, bib, d)
    }
}

/// Looks up the placement the judge gave the entrant in the dance:
/// the first matching cell, 0 when none exists.
#[verifier::loop_isolation(false)]
fn find_placement(cells: &Vec<PlacementCell>, code: &str, bib: u32, d: Dance) -> (p: u32)
    ensures
        p == spec_placement(cells@, code@, bib, d),
{
    let len = cells.len();
    proof {
        assert(cells@.skip(0) =~= cells@);
    }
    let mut t: usize = 0;
    while t < len
        invariant
            t <= len,
            spec_placement(cells@, code@, bib, d) == spec_placement(
                cells@.skip(t as int),
                code@,
                bib,
                d,
            ),
        decreases len - t,
    {
        proof {
            assert(cells@.skip(t as int)[0] == cells@[t as int]);
        }
        if str_eq(cells[t].judge.as_str(), code) && cells[t].bib == bib && cells[t].dance == d {
            return cells[t].placement;
        }
        proof {
            assert(cells@.skip(t as int).drop_first() =~= cells@.skip(t as int + 1));
        }
        t += 1;
    }
    proof {
        assert(cells@.skip(len as int).len() == 0);
    }
    0
}

/// The placement matrix one dance's panel produced in the round:
/// one row per roster judge, one entry per observed entrant.
pub open spec fn spec_dance_matrix(
    cells: Seq<PlacementCell>,
    judges: Seq<Judge>,
    bibs: Seq<u32>,
    d: Dance,
) -> Seq<Seq<u32>> {
    Seq::new(
        judges.len(),
        |j: int| Seq::new(bibs.len(), |i: int| spec_placement(cells, judges[j].code@, bibs[i], d)),
    )
}

/// The recomputed consensus ranks of one dance of the round, one
/// entry per observed entrant.
pub open spec fn spec_rank_row(
    cells: Seq<PlacementCell>,
    judges: Seq<Judge>,
    bibs: Seq<u32>,
    d: Dance,
) -> Seq<u32> {
    let mtx = spec_dance_matrix(cells, judges, bibs, d);
    let table = crate::skating::spec_skate(
        mtx,
        crate::skating::spec_majority(judges.len() as int),
        bibs.len() as int,
        vstd::set_lib::set_int_range(0, bibs.len() as int),
        1,
        1,
    );
    Seq::new(bibs.len(), |i: int| table[i] as u32)
}

/// The recomputed per-dance rank table over all contested dances.
pub open spec fn spec_dr_matrix(
    cells: Seq<PlacementCell>,
    judges: Seq<Judge>,
    bibs: Seq<u32>,
    dances: Seq<Dance>,
) -> Seq<Seq<u32>> {
    Seq::new(dances.len(), |d: int| spec_rank_row(cells, judges, bibs, dances[d]))
}

/// The raw placement matrices over all contested dances.
pub open spec fn spec_marks_matrices(
    cells: Seq<PlacementCell>,
    judges: Seq<Judge>,
    bibs: Seq<u32>,
    dances: Seq<Dance>,
) -> Seq<Seq<Seq<u32>>> {
    Seq::new(dances.len(), |d: int| spec_dance_matrix(cells, judges, bibs, dances[d]))
}

/// The overall rank the Skating System recomputes for the entrant at
/// position `i` of the last round's participant list.
pub open spec fn spec_recomputed_rank(c: Competition, cells: Seq<PlacementCell>, i: int) -> int {
    let bibs = bib_list_dtv(cells, cells.len() as int);
    crate::skating::spec_overall_rank(
        spec_dr_matrix(cells, c.officials.judges@, bibs, c.dances@),
        Some(spec_marks_matrices(cells, c.officials.judges@, bibs, c.dances@)),
        bibs.len() as int,
        i,
    )
}

/// Scrutineering rejections among the first `t` participants: every
/// declared final rank must match the rank recomputed from the last
/// round's raw placements.
pub open spec fn spec_scrut_reasons(c: Competition, cells: Seq<PlacementCell>, t: int) -> Seq<
    RejectionReason,
>
    decreases t,
{
    if t <= 0 {
        Seq::empty()
    } else {
        let p = c.participants@[t - 1];
        let bibs = bib_list_dtv(cells, cells.len() as int);
        spec_scrut_reasons(c, cells, t - 1) + (match p.final_rank {
            Some(fr) => if bibs.contains(p.bib_number) {
                let i = choose|i: int| 0 <= i < bibs.len() && bibs[i] == p.bib_number;
                let rec = spec_recomputed_rank(c, cells, i) as u32;
                if fr != rec {
                    seq![
                        RejectionReason::ScrutineeringMismatch {
                            bib: p.bib_number,
                            expected: fr,
                            recomputed: rec,
                        },
                    ]
                } else {
                    Seq::empty()
                }
            } else {
                Seq::empty()
            },
            None => Seq::empty(),
        })
    }
}

/// Copies a list of starting numbers.
fn copy_u32s(v: &Vec<u32>) -> (r: Vec<u32>)
    ensures
        r@ == v@,
{
    let len = v.len();
    let mut r: Vec<u32> = Vec::new();
    let mut t: usize = 0;
    while t < len
        invariant
            len == v@.len(),
            t <= len,
            r@ == v@.subrange(0, t as int),
        decreases len - t,
    {
        r.push(v[t]);
        proof {
            assert(r@ =~= v@.subrange(0, t as int + 1));
        }
        t += 1;
    }
    proof {
        assert(v@.subrange(0, len as int) =~= v@);
    }
    r
}

/// Recomputes the last round's ranks from its raw placements and
/// appends one scrutineering rejection for every declared final rank
/// that disagrees.
#[verifier::loop_isolation(false)]
fn push_scrutineering_reasons(
    comp: &Competition,
    cells: &Vec<PlacementCell>,
    reasons: &mut Vec<RejectionReason>,
)
    requires
        spec_sizes_ok(*comp),
        comp.officials.judges@.len() >= 1,
        comp.rounds@.len() > 0,
        comp.rounds@.last().data == RoundData::Dtv(*cells),
        cells@.len() < u32::MAX,
    ensures
        final(reasons)@ == old(reasons)@ + spec_scrut_reasons(
            *comp,
            cells@,
            comp.participants@.len() as int,
        ),
{
    let last_idx = comp.rounds.len() - 1;
    let last = &comp.rounds[last_idx];
    proof {
        assert(comp.rounds@[last_idx as int] == comp.rounds@.last());
    }
    let bibs = match &last.data {
        RoundData::Dtv(c2) => round_participants(last),
        _ => Vec::new(),
    };
    proof {
        assert(bibs@ == bib_list_dtv(cells@, cells@.len() as int));
        lemma_bib_list_dtv_distinct(cells@, cells@.len() as int);
    }
    let n = bibs.len();
    let jn = comp.officials.judges.len();
    let dn = comp.dances.len();
    let ghost gjudges = comp.officials.judges@;
    let ghost gdances = comp.dances@;

    // Judge codes for the per-dance mark tables.
    let mut codes: Vec<String> = Vec::new();
    let mut j: usize = 0;
    while j < jn
        invariant
            j <= jn,
            codes@.len() == j,
            forall|q: int| 0 <= q < j ==> (#[trigger] codes@[q])@ == gjudges[q].code@,
        decreases jn - j,
    {
        codes.push(comp.officials.judges[j].code.clone());
        j += 1;
    }

    let mut drm: Vec<Vec<u32>> = Vec::new();
    let mut mks: Vec<Vec<Vec<u32>>> = Vec::new();
    let mut d: usize = 0;
    while d < dn
        invariant
            d <= dn,
            drm@.len() == d,
            mks@.len() == d,
            codes@.len() == jn,
            forall|q: int| 0 <= q < jn ==> (#[trigger] codes@[q])@ == gjudges[q].code@,
            forall|q: int|
                0 <= q < d ==> (#[trigger] drm@[q])@ == spec_rank_row(
                    cells@,
                    gjudges,
                    bibs@,
                    gdances[q],
                ),
            forall|q: int|
                0 <= q < d ==> (#[trigger] mks@[q]).deep_view() == spec_dance_matrix(
                    cells@,
                    gjudges,
                    bibs@,
                    gdances[q],
                ),
        decreases dn - d,
    {
        let dance = comp.dances[d];
        let ghost gmtx = spec_dance_matrix(cells@, gjudges, bibs@, dance);
        // Raw placement matrix of this dance.
        let mut mtx: Vec<Vec<u32>> = Vec::new();
        let mut j: usize = 0;
        while j < jn
            invariant
                j <= jn,
                mtx@.len() == j,
                forall|q: int| 0 <= q < jn ==> (#[trigger] codes@[q])@ == gjudges[q].code@,
                forall|q: int| 0 <= q < j ==> (#[trigger] mtx@[q])@ == gmtx[q],
            decreases jn - j,
        {
            let mut row: Vec<u32> = Vec::new();
            let mut i: usize = 0;
            while i < n
                invariant
                    i <= n,
                    j < jn,
                    row@.len() == i,
                    forall|q: int| 0 <= q < jn ==> (#[trigger] codes@[q])@ == gjudges[q].code@,
                    forall|q: int|
                        0 <= q < i ==> row@[q] == spec_placement(
                            cells@,
                            gjudges[j as int].code@,
                            bibs@[q],
                            dance,
                        ),
                decreases n - i,
            {
                row.push(find_placement(cells, codes[j].as_str(), bibs[i], dance));
                i += 1;
            }
            proof {
                assert(row@ =~= gmtx[j as int]);
            }
            mtx.push(row);
            j += 1;
        }

        // Consensus ranks of this dance.
        let dm_judges = {
            let mut v: Vec<String> = Vec::new();
            let mut q: usize = 0;
            while q < jn
                invariant
                    q <= jn,
                    v@.len() == q,
                decreases jn - q,
            {
                v.push(codes[q].clone());
                q += 1;
            }
            v
        };
        let dm = crate::skating::DanceMarks {
            judges: dm_judges,
            bibs: copy_u32s(&bibs),
            marks: mtx,
        };
        proof {
            assert(dm.mark_table() =~= gmtx) by {
                assert forall|q: int| 0 <= q < jn implies dm.marks.deep_view()[q] == gmtx[q] by {
                    assert(dm.marks@[q]@ == gmtx[q]);
                }
            }
            assert(dm.wf());
        }
        let ranked = crate::skating::calculate_dance_ranks(&dm);
        let mut row_ranks: Vec<u32> = Vec::new();
        let mut i: usize = 0;
        while i < n
            invariant
                i <= n,
                n == bibs@.len(),
                jn >= 1,
                ranked@.len() == n,
                row_ranks@.len() == i,
                forall|q: int| 0 <= q < n ==> (#[trigger] ranked@[q]).1 as int == crate::skating::spec_skate(
                    gmtx,
                    crate::skating::spec_majority(jn as int),
                    n as int,
                    vstd::set_lib::set_int_range(0, n as int),
                    1,
                    1,
                )[q],
                forall|q: int|
                    0 <= q < i ==> row_ranks@[q] == spec_rank_row(
                        cells@,
                        gjudges,
                        bibs@,
                        dance,
                    )[q],
            decreases n - i,
        {
            row_ranks.push(ranked[i].1);
            i += 1;
        }
        proof {
            assert(row_ranks@ =~= spec_rank_row(cells@, gjudges, bibs@, dance));
        }
        drm.push(row_ranks);
        // Keep the raw matrix for the overall tie-break.
        let mut mtx2: Vec<Vec<u32>> = Vec::new();
        let mut j2: usize = 0;
        while j2 < jn
            invariant
                j2 <= jn,
                mtx2@.len() == j2,
                dm.marks@.len() == jn,
                forall|q: int| 0 <= q < jn ==> (#[trigger] dm.marks@[q])@ == gmtx[q],
                forall|q: int| 0 <= q < j2 ==> (#[trigger] mtx2@[q])@ == gmtx[q],
            decreases jn - j2,
        {
            mtx2.push(copy_u32s(&dm.marks[j2]));
            j2 += 1;
        }
        proof {
            assert(mtx2.deep_view() =~= gmtx) by {
                assert forall|q: int| 0 <= q < jn implies mtx2.deep_view()[q] == gmtx[q] by {
                    assert(mtx2@[q]@ == gmtx[q]);
                }
            }
        }
        mks.push(mtx2);
        d += 1;
    }

    let ghost gdrm = spec_dr_matrix(cells@, gjudges, bibs@, gdances);
    let ghost gmks = spec_marks_matrices(cells@, gjudges, bibs@, gdances);
    proof {
        assert(drm.deep_view() =~= gdrm) by {
            assert forall|q: int| 0 <= q < dn implies drm.deep_view()[q] == gdrm[q] by {
                assert(drm@[q]@ == spec_rank_row(cells@, gjudges, bibs@, gdances[q]));
            }
        }
        assert(mks.deep_view() =~= gmks) by {
            assert forall|q: int| 0 <= q < dn implies mks.deep_view()[q] == gmks[q] by {
                assert(mks@[q].deep_view() == spec_dance_matrix(cells@, gjudges, bibs@, gdances[q]));
            }
        }
    }
    proof {
        assert forall|d2: int, j2: int|
            0 <= d2 < mks@.len() && 0 <= j2 < (#[trigger] mks@[d2])@.len() implies (
        #[trigger] mks@[d2]@[j2])@.len() == bibs@.len() by {
            assert(mks@[d2].deep_view().len() == mks@[d2]@.len());
            assert(mks@[d2].deep_view() == gmks[d2]);
            assert(mks@[d2]@[j2]@ == mks@[d2].deep_view()[j2]);
            assert(gmks[d2][j2].len() == bibs@.len());
        }
        assert forall|d2: int|
            0 <= d2 < drm@.len() implies (#[trigger] drm@[d2])@.len() == bibs@.len() by {
            assert(drm.deep_view()[d2] == gdrm[d2]);
            assert(drm@[d2]@ == drm.deep_view()[d2]);
        }
    }
    let marks_opt: Option<Vec<Vec<Vec<u32>>>> = Some(mks);
    let overall = crate::skating::calculate_final_ranks(&bibs, &drm, &marks_opt);

    // Compare every declared final rank against the recomputed rank.
    let pn = comp.participants.len();
    let mut t: usize = 0;
    while t < pn
        invariant
            t <= pn,
            pn == comp.participants@.len(),
            n == bibs@.len(),
            overall@.len() == n,
            forall|q: int|
                0 <= q < n ==> (#[trigger] overall@[q]).1 as int == spec_recomputed_rank(
                    *comp,
                    cells@,
                    q,
                ),
            reasons@ == old(reasons)@ + spec_scrut_reasons(*comp, cells@, t as int),
        decreases pn - t,
    {
        let p = &comp.participants[t];
        if let Some(fr) = p.final_rank {
            let mut found = false;
            let mut idx: usize = 0;
            let mut i: usize = 0;
            while i < n
                invariant
                    i <= n,
                    n == bibs@.len(),
                    found ==> idx < n && bibs@[idx as int] == p.bib_number,
                    !found ==> forall|q: int| 0 <= q < i ==> bibs@[q] != p.bib_number,
                    found ==> forall|q: int| 0 <= q < i && q != idx ==> bibs@[q] != p.bib_number,
                decreases n - i,
            {
                if !found && bibs[i] == p.bib_number {
                    found = true;
                    idx = i;
                }
                i += 1;
            }
            if found {
                proof {
                    let ghost gi = choose|q: int|
                        0 <= q < bibs@.len() && bibs@[q] == p.bib_number;
                    assert(bibs@[idx as int] == p.bib_number);
                    assert(gi == idx as int);
                }
                let rec = overall[idx].1;
                if fr != rec {
                    let reason = RejectionReason::ScrutineeringMismatch {
                        bib: p.bib_number,
                        expected: fr,
                        recomputed: rec,
                    };
                    reasons.push(reason);
                }
            } else {
                proof {
                    assert(!bibs@.contains(p.bib_number));
                }
            }
        }
        proof {
            assert(reasons@ =~= old(reasons)@ + spec_scrut_reasons(*comp, cells@, t as int + 1));
        }
        t += 1;
    }
}


/// Structural rejections: roster below three judges, no participants,
/// no rounds.
pub open spec fn spec_step1(c: Competition) -> Seq<RejectionReason> {
    (if c.officials.judges@.len() < 3 {
        seq![RejectionReason::InsufficientOfficials]
    } else {
        Seq::empty()
    }) + (if c.participants@.len() == 0 {
        seq![RejectionReason::EmptyParticipants]
    } else {
        Seq::empty()
    }) + (if c.rounds@.len() == 0 {
        seq![RejectionReason::EmptyRounds]
    } else {
        Seq::empty()
    })
}

/// Completeness and score-math rejections of one round.
pub open spec fn spec_round4_reasons(c: Competition, i: int) -> Seq<RejectionReason> {
    let round = c.rounds@[i];
    let parts = spec_round_bibs(round.data);
    (if !spec_round_complete(round.data, c.officials.judges@, parts, c.dances@) {
        seq![RejectionReason::IncompleteRound { round: i as usize }]
    } else {
        Seq::empty()
    }) + (match round.data {
        RoundData::Wdsf(cells) => spec_score_reasons(cells@, i as usize, cells@.len() as int),
        _ => Seq::empty(),
    })
}

/// Completeness and score-math rejections of the first `i` rounds.
pub open spec fn spec_step4_upto(c: Competition, i: int) -> Seq<RejectionReason>
    decreases i,
{
    if i <= 0 {
        Seq::empty()
    } else {
        spec_step4_upto(c, i - 1) + spec_round4_reasons(c, i - 1)
    }
}

/// Teleport and progression rejections of one round: every observed
/// entrant must have been present in the first round, and unless the
/// previous round was a redance while this one is not, this round's
/// entrants must be a subset of the previous round's.
pub open spec fn spec_round5_reasons(c: Competition, i: int) -> Seq<RejectionReason> {
    let li = spec_round_bibs(c.rounds@[i].data);
    let l0 = spec_round_bibs(c.rounds@[0].data);
    spec_teleport_reasons(li, l0, li.len() as int) + (if i >= 1 && (crate::i18n::spec_is_redance(
        c.rounds@[i].name@,
    ) || !crate::i18n::spec_is_redance(c.rounds@[i - 1].name@)) && !spec_list_subset(
        li,
        spec_round_bibs(c.rounds@[i - 1].data),
    ) {
        seq![RejectionReason::ProgressionViolation { round: i as usize }]
    } else {
        Seq::empty()
    })
}

/// Teleport and progression rejections of the first `i` rounds.
pub open spec fn spec_step5_rounds_upto(c: Competition, i: int) -> Seq<RejectionReason>
    decreases i,
{
    if i <= 0 {
        Seq::empty()
    } else {
        spec_step5_rounds_upto(c, i - 1) + spec_round5_reasons(c, i - 1)
    }
}

/// A declared final rank implies presence: in every non-redance round
/// with at least that many entrants, the participant must appear.
pub open spec fn spec_rank_presence_violated(c: Competition, p: crate::models::Participant) -> bool {
    match p.final_rank {
        Some(fr) => exists|i: int|
            0 <= i < c.rounds@.len() && !crate::i18n::spec_is_redance(
                (#[trigger] c.rounds@[i]).name@,
            ) && fr as int <= spec_round_bibs(c.rounds@[i].data).len() && !spec_round_bibs(
                c.rounds@[i].data,
            ).contains(p.bib_number),
        None => false,
    }
}

/// Final-rank presence rejections of the first `t` participants.
pub open spec fn spec_rank_reasons_upto(c: Competition, t: int) -> Seq<RejectionReason>
    decreases t,
{
    if t <= 0 {
        Seq::empty()
    } else {
        spec_rank_reasons_upto(c, t - 1) + (if spec_rank_presence_violated(
            c,
            c.participants@[t - 1],
        ) {
            seq![
                RejectionReason::RankInconsistentWithFinalRank {
                    bib: c.participants@[t - 1].bib_number,
                },
            ]
        } else {
            Seq::empty()
        })
    }
}

/// All progression rejections: per-round teleport and subset checks,
/// then final-rank presence per participant.
pub open spec fn spec_step5(c: Competition) -> Seq<RejectionReason> {
    spec_step5_rounds_upto(c, c.rounds@.len() as int) + spec_rank_reasons_upto(
        c,
        c.participants@.len() as int,
    )
}

/// Scrutineering rejections: only a last round with DTV placements is
/// recomputed.
pub open spec fn spec_step6(c: Competition) -> Seq<RejectionReason> {
    match c.rounds@.last().data {
        RoundData::Dtv(cells) => spec_scrut_reasons(c, cells@, c.participants@.len() as int),
        _ => Seq::empty(),
    }
}

/// The reasons the fidelity gate reports, in check order: structural
/// checks, the minimum-dances policy, the final anchor, per-round
/// completeness and score math, cross-round progression, and the
/// scrutineering recomputation.  Checking ends at the first failing
/// step, whose reasons make up the verdict.
pub open spec fn spec_reasons(c: Competition) -> Seq<RejectionReason> {
    let s1 = spec_step1(c);
    if s1.len() > 0 {
        s1
    } else if (c.dances@.len() as int) < c.min_dances as int {
        seq![RejectionReason::BelowMinimumDances]
    } else if !(c.rounds@.last().data is Dtv || c.rounds@.last().data is Wdsf) {
        seq![RejectionReason::MissingFinalAnchor]
    } else {
        let s4 = spec_step4_upto(c, c.rounds@.len() as int);
        if s4.len() > 0 {
            s4
        } else {
            let s5 = spec_step5(c);
            if s5.len() > 0 {
                s5
            } else {
                spec_step6(c)
            }
        }
    }
}

/// Whether the participant's declared final rank implies presence in
/// a round it is absent from.
#[verifier::loop_isolation(false)]
fn rank_presence_violated(
    comp: &Competition,
    lists: &Vec<Vec<u32>>,
    p: &crate::models::Participant,
) -> (b: bool)
    requires
        lists@.len() == comp.rounds@.len(),
        forall|q: int|
            0 <= q < lists@.len() ==> (#[trigger] lists@[q])@ == spec_round_bibs(
                comp.rounds@[q].data,
            ),
    ensures
        b == spec_rank_presence_violated(*comp, *p),
{
    let fr = match p.final_rank {
        Some(fr) => fr,
        None => {
            return false;
        },
    };
    let rn = comp.rounds.len();
    let mut i: usize = 0;
    while i < rn
        invariant
            i <= rn,
            forall|q: int|
                0 <= q < i ==> !(!crate::i18n::spec_is_redance((#[trigger] comp.rounds@[q]).name@)
                    && fr as int <= spec_round_bibs(comp.rounds@[q].data).len()
                    && !spec_round_bibs(comp.rounds@[q].data).contains(p.bib_number)),
        decreases rn - i,
    {
        if !crate::i18n::is_redance(comp.rounds[i].name.as_str()) {
            if (fr as usize) <= lists[i].len() {
                if !vec_contains_u32(&lists[i], p.bib_number) {
                    return true;
                }
            }
        }
        i += 1;
    }
    false
}

/// Appends every progression rejection: teleport and subset checks
/// per round, then final-rank presence per participant.
#[verifier::loop_isolation(false)]
fn push_progression_reasons(
    comp: &Competition,
    lists: &Vec<Vec<u32>>,
    reasons: &mut Vec<RejectionReason>,
)
    requires
        comp.rounds@.len() > 0,
        lists@.len() == comp.rounds@.len(),
        forall|q: int|
            0 <= q < lists@.len() ==> (#[trigger] lists@[q])@ == spec_round_bibs(
                comp.rounds@[q].data,
            ),
    ensures
        final(reasons)@ == old(reasons)@ + spec_step5(*comp),
{
    let rn = comp.rounds.len();
    let mut i: usize = 0;
    proof {
        assert(reasons@ =~= old(reasons)@ + spec_step5_rounds_upto(*comp, 0));
    }
    while i < rn
        invariant
            i <= rn,
            reasons@ == old(reasons)@ + spec_step5_rounds_upto(*comp, i as int),
        decreases rn - i,
    {
        push_teleport_reasons(&lists[i], &lists[0], reasons);
        if i >= 1 {
            let cur_red = crate::i18n::is_redance(comp.rounds[i].name.as_str());
            let prev_red = crate::i18n::is_redance(comp.rounds[i - 1].name.as_str());
            if (cur_red || !prev_red) && !list_subset(&lists[i], &lists[i - 1]) {
                reasons.push(RejectionReason::ProgressionViolation { round: i });
            }
        }
        proof {
            assert(reasons@ =~= old(reasons)@ + spec_step5_rounds_upto(*comp, i as int + 1));
        }
        i += 1;
    }
    let pn = comp.participants.len();
    let mut t: usize = 0;
    while t < pn
        invariant
            t <= pn,
            reasons@ == old(reasons)@ + spec_step5_rounds_upto(*comp, rn as int)
                + spec_rank_reasons_upto(*comp, t as int),
        decreases pn - t,
    {
        if rank_presence_violated(comp, lists, &comp.participants[t]) {
            reasons.push(
                RejectionReason::RankInconsistentWithFinalRank {
                    bib: comp.participants[t].bib_number,
                },
            );
        }
        proof {
            assert(reasons@ =~= old(reasons)@ + spec_step5_rounds_upto(*comp, rn as int)
                + spec_rank_reasons_upto(*comp, t as int + 1));
        }
        t += 1;
    }
}

/// The fidelity gate: checks a fully extracted competition in order —
/// at least three judges, participants and rounds present, enough
/// contested dances, a final round with placement or score data,
/// complete rounds with sound score math, consistent cross-round
/// progression, and declared final ranks that agree with the ranks
/// recomputed from the last round's raw placements.  Checking ends at
/// the first failing step, whose reasons make up the verdict.
#[verifier::loop_isolation(false)]
pub fn verify_competition(comp: &Competition) -> (v: Verdict)
    requires
        spec_sizes_ok(*comp),
    ensures
        v is Accepted <==> spec_reasons(*comp).len() == 0,
        v matches Verdict::Rejected(rs) ==> rs@ == spec_reasons(*comp) && rs@.len() > 0,
{
    let mut reasons: Vec<RejectionReason> = Vec::new();
    if comp.officials.judges.len() < 3 {
        reasons.push(RejectionReason::InsufficientOfficials);
    }
    if comp.participants.len() == 0 {
        reasons.push(RejectionReason::EmptyParticipants);
    }
    if comp.rounds.len() == 0 {
        reasons.push(RejectionReason::EmptyRounds);
    }
    proof {
        assert(reasons@ =~= spec_step1(*comp));
    }
    if reasons.len() > 0 {
        return Verdict::Rejected(reasons);
    }

    if (comp.dances.len() as u64) < (comp.min_dances as u64) {
        reasons.push(RejectionReason::BelowMinimumDances);
        proof {
            assert(reasons@ =~= spec_reasons(*comp));
        }
        return Verdict::Rejected(reasons);
    }

    let last_idx = comp.rounds.len() - 1;
    proof {
        assert(comp.rounds@[last_idx as int] == comp.rounds@.last());
    }
    let last_is_marking = match &comp.rounds[last_idx].data {
        RoundData::Marking(_) => true,
        _ => false,
    };
    if last_is_marking {
        reasons.push(RejectionReason::MissingFinalAnchor);
        proof {
            assert(reasons@ =~= spec_reasons(*comp));
        }
        return Verdict::Rejected(reasons);
    }

    let rn = comp.rounds.len();
    let mut i: usize = 0;
    while i < rn
        invariant
            i <= rn,
            reasons@ == spec_step4_upto(*comp, i as int),
        decreases rn - i,
    {
        let parts = round_participants(&comp.rounds[i]);
        if !is_round_complete(&comp.rounds[i], &comp.officials.judges, &parts, &comp.dances) {
            reasons.push(RejectionReason::IncompleteRound { round: i });
        }
        match &comp.rounds[i].data {
            RoundData::Wdsf(cells) => {
                push_score_mismatches(cells, i, &mut reasons);
            },
            _ => {},
        }
        proof {
            assert(reasons@ =~= spec_step4_upto(*comp, i as int + 1));
        }
        i += 1;
    }
    if reasons.len() > 0 {
        proof {
            assert(reasons@ == spec_reasons(*comp));
        }
        return Verdict::Rejected(reasons);
    }

    let mut lists: Vec<Vec<u32>> = Vec::new();
    let mut i: usize = 0;
    while i < rn
        invariant
            i <= rn,
            lists@.len() == i,
            forall|q: int|
                0 <= q < i ==> (#[trigger] lists@[q])@ == spec_round_bibs(comp.rounds@[q].data),
        decreases rn - i,
    {
        lists.push(round_participants(&comp.rounds[i]));
        i += 1;
    }
    push_progression_reasons(comp, &lists, &mut reasons);
    if reasons.len() > 0 {
        proof {
            assert(reasons@ == spec_reasons(*comp));
        }
        return Verdict::Rejected(reasons);
    }

    match &comp.rounds[last_idx].data {
        RoundData::Dtv(cells) => {
            push_scrutineering_reasons(comp, cells, &mut reasons);
        },
        _ => {},
    }
    if reasons.len() > 0 {
        proof {
            assert(reasons@ == spec_reasons(*comp));
        }
        return Verdict::Rejected(reasons);
    }
    proof {
        assert(spec_reasons(*comp).len() == 0);
    }
    Verdict::Accepted
}

/// An event is faithfully transcribed when it hosts at least one
/// competition and the fidelity gate accepts every one of them.
pub open spec fn spec_event_valid(e: Event) -> bool {
    &&& e.competitions_list@.len() > 0
    &&& forall|q: int|
        0 <= q < e.competitions_list@.len() ==> spec_reasons(
            #[trigger] e.competitions_list@[q],
        ).len() == 0
}

/// Checks whether the extracted competitions reproduce the officiated
/// results: every competition of the event must pass the fidelity
/// gate, and the event must hold at least one.
#[verifier::loop_isolation(false)]
pub fn validate_event_fidelity(event: &Event) -> (b: bool)
    requires
        forall|q: int|
            0 <= q < event.competitions_list@.len() ==> spec_sizes_ok(
                #[trigger] event.competitions_list@[q],
            ),
    ensures
        b == spec_event_valid(*event),
{
    let cn = event.competitions_list.len();
    if cn == 0 {
        return false;
    }
    let mut q: usize = 0;
    while q < cn
        invariant
            q <= cn,
            forall|t: int|
                0 <= t < q ==> spec_reasons(#[trigger] event.competitions_list@[t]).len() == 0,
        decreases cn - q,
    {
        let v = verify_competition(&event.competitions_list[q]);
        match v {
            Verdict::Accepted => {},
            Verdict::Rejected(_) => {
                return false;
            },
        }
        q += 1;
    }
    true
}


/// A starting number stands in the participant list exactly when one
/// of the first `t` placement cells carries it.
pub proof fn lemma_bib_list_dtv_contains(cells: Seq<PlacementCell>, t: int, b: u32)
    requires
        0 <= t <= cells.len(),
    ensures
        bib_list_dtv(cells, t).contains(b) <==> exists|q: int|
            0 <= q < t && (#[trigger] cells[q]).bib == b,
    decreases t,
{
    if t > 0 {
        lemma_bib_list_dtv_contains(cells, t - 1, b);
        let prev = bib_list_dtv(cells, t - 1);
        let cur = bib_list_dtv(cells, t);
        if cells[t - 1].bib == b {
            assert(cur.contains(b)) by {
                if prev.contains(cells[t - 1].bib) {
                } else {
                    assert(cur[cur.len() - 1] == b);
                }
            }
        } else {
            assert(cur.contains(b) <==> prev.contains(b)) by {
                if !prev.contains(cells[t - 1].bib) {
                    if cur.contains(b) {
                        let q = choose|q: int| 0 <= q < cur.len() && cur[q] == b;
                        assert(q < cur.len() - 1);
                        assert(prev[q] == b);
                    }
                    if prev.contains(b) {
                        let q = choose|q: int| 0 <= q < prev.len() && prev[q] == b;
                        assert(cur[q] == b);
                    }
                }
            }
        }
    }
}

/// Completeness is fragile: deleting any single placement cell of an
/// otherwise complete round leaves the round incomplete.  The deleted
/// cell must belong to the checked grid — its judge on the roster,
/// its dance contested — the roster must hold at least two judges
/// with distinct codes, and no cell may be recorded twice.
pub proof fn lemma_completeness_fragile_dtv(
    cells: Seq<PlacementCell>,
    judges: Seq<Judge>,
    dances: Seq<Dance>,
    t: int,
)
    requires
        0 <= t < cells.len(),
        dtv_covered(cells, judges, bib_list_dtv(cells, cells.len() as int), dances),
        exists|j: int| 0 <= j < judges.len() && (#[trigger] judges[j]).code@ == cells[t].judge@,
        dances.contains(cells[t].dance),
        judges.len() >= 2,
        forall|j1: int, j2: int|
            0 <= j1 < j2 < judges.len() ==> (#[trigger] judges[j1]).code@ != (
            #[trigger] judges[j2]).code@,
        forall|t1: int, t2: int|
            0 <= t1 < t2 < cells.len() ==> !((#[trigger] cells[t1]).judge@ == (
            #[trigger] cells[t2]).judge@ && cells[t1].bib == cells[t2].bib && cells[t1].dance
                == cells[t2].dance),
    ensures
        !(bib_list_dtv(cells.remove(t), cells.len() - 1).len() > 0 && dtv_covered(
            cells.remove(t),
            judges,
            bib_list_dtv(cells.remove(t), cells.len() - 1),
            dances,
        )),
{
    let cells2 = cells.remove(t);
    assert(cells2.len() == cells.len() - 1);
    let parts2 = bib_list_dtv(cells2, cells2.len() as int);
    let jcode = cells[t].judge@;
    let b = cells[t].bib;
    let d = cells[t].dance;
    let j = choose|j: int| 0 <= j < judges.len() && (#[trigger] judges[j]).code@ == jcode;
    let j2: int = if j == 0 {
        1
    } else {
        0
    };
    assert(judges[j2].code@ != jcode);

    // The full round observes the deleted entrant.
    let parts = bib_list_dtv(cells, cells.len() as int);
    lemma_bib_list_dtv_contains(cells, cells.len() as int, b);
    assert(parts.contains(b));
    let bi = choose|bi: int| 0 <= bi < parts.len() && parts[bi] == b;
    let di = choose|di: int| 0 <= di < dances.len() && dances[di] == d;

    // The other judge's cell for the same entrant and dance survives.
    assert(has_dtv_cell(cells, judges[j2].code@, b, d)) by {
        assert(parts[bi] == b && dances[di] == d);
    }
    let u = choose|u: int|
        0 <= u < cells.len() && (#[trigger] cells[u]).judge@ == judges[j2].code@ && cells[u].bib
            == b && cells[u].dance == d;
    assert(u != t);
    let u2: int = if u < t {
        u
    } else {
        u - 1
    };
    assert(cells2[u2] == cells[u]);
    lemma_bib_list_dtv_contains(cells2, cells2.len() as int, b);
    assert(parts2.contains(b)) by {
        assert(cells2[u2].bib == b);
    }

    // The deleted judge's cell for the entrant and dance is gone for
    // good: a second one would have been a duplicate.
    assert(!has_dtv_cell(cells2, jcode, b, d)) by {
        if has_dtv_cell(cells2, jcode, b, d) {
            let v = choose|v: int|
                0 <= v < cells2.len() && (#[trigger] cells2[v]).judge@ == jcode && cells2[v].bib
                    == b && cells2[v].dance == d;
            let v2: int = if v < t {
                v
            } else {
                v + 1
            };
            assert(cells2[v] == cells[v2]);
            assert(v2 != t);
            if v2 < t {
                assert(!(cells[v2].judge@ == cells[t].judge@ && cells[v2].bib == cells[t].bib
                    && cells[v2].dance == cells[t].dance));
            } else {
                assert(!(cells[t].judge@ == cells[v2].judge@ && cells[t].bib == cells[v2].bib
                    && cells[t].dance == cells[v2].dance));
            }
        }
    }

    // So the shrunken round cannot cover the grid.
    if parts2.len() > 0 && dtv_covered(cells2, judges, parts2, dances) {
        let bi2 = choose|bi2: int| 0 <= bi2 < parts2.len() && parts2[bi2] == b;
        assert(has_dtv_cell(cells2, judges[j].code@, parts2[bi2], dances[di]));
    }
}

/// A teleported entrant always leaves its trace: the rejection list
/// of the first `t` entrants of the round carries its reason.
pub proof fn lemma_teleport_reason_present(li: Seq<u32>, l0: Seq<u32>, t: int, q: int)
    requires
        0 <= q < t <= li.len(),
        !l0.contains(li[q]),
    ensures
        spec_teleport_reasons(li, l0, t).contains(
            RejectionReason::ParticipantTeleported { bib: li[q] },
        ),
    decreases t,
{
    let reason = RejectionReason::ParticipantTeleported { bib: li[q] };
    if q == t - 1 {
        let prefix = spec_teleport_reasons(li, l0, t - 1);
        assert(spec_teleport_reasons(li, l0, t)[prefix.len() as int] == reason);
    } else {
        lemma_teleport_reason_present(li, l0, t - 1, q);
        let prefix = spec_teleport_reasons(li, l0, t - 1);
        let k = choose|k: int| 0 <= k < prefix.len() && prefix[k] == reason;
        assert(spec_teleport_reasons(li, l0, t)[k] == reason);
    }
}

/// The per-round rejections of round `i` stand in the combined list
/// over the first `n` rounds.
pub proof fn lemma_step5_rounds_contains(
    c: Competition,
    n: int,
    i: int,
    reason: RejectionReason,
)
    requires
        0 <= i < n,
        spec_round5_reasons(c, i).contains(reason),
    ensures
        spec_step5_rounds_upto(c, n).contains(reason),
    decreases n,
{
    let prefix = spec_step5_rounds_upto(c, n - 1);
    if i == n - 1 {
        let k = choose|k: int|
            0 <= k < spec_round5_reasons(c, i).len() && spec_round5_reasons(c, i)[k] == reason;
        assert(spec_step5_rounds_upto(c, n)[prefix.len() + k] == reason);
    } else {
        lemma_step5_rounds_contains(c, n - 1, i, reason);
        let k = choose|k: int| 0 <= k < prefix.len() && prefix[k] == reason;
        assert(spec_step5_rounds_upto(c, n)[k] == reason);
    }
}

/// Teleportation: an entrant observed in any round without having
/// been present in the first round always has the competition
/// rejected, whatever the redance status of the rounds; and when the
/// structural, policy, anchor and completeness checks all pass, the
/// verdict names the entrant's teleport reason itself.
pub proof fn lemma_teleportation(c: Competition, i: int, b: u32)
    requires
        0 <= i < c.rounds@.len(),
        spec_round_bibs(c.rounds@[i].data).contains(b),
        !spec_round_bibs(c.rounds@[0].data).contains(b),
    ensures
        spec_reasons(c).len() > 0,
        (spec_step1(c).len() == 0 && c.dances@.len() >= c.min_dances as int && (
        c.rounds@.last().data is Dtv || c.rounds@.last().data is Wdsf) && spec_step4_upto(
            c,
            c.rounds@.len() as int,
        ).len() == 0) ==> spec_reasons(c).contains(
            RejectionReason::ParticipantTeleported { bib: b },
        ),
{
    let reason = RejectionReason::ParticipantTeleported { bib: b };
    let li = spec_round_bibs(c.rounds@[i].data);
    let l0 = spec_round_bibs(c.rounds@[0].data);
    let q = choose|q: int| 0 <= q < li.len() && li[q] == b;
    lemma_teleport_reason_present(li, l0, li.len() as int, q);
    assert(spec_round5_reasons(c, i).contains(reason)) by {
        let tele = spec_teleport_reasons(li, l0, li.len() as int);
        let k = choose|k: int| 0 <= k < tele.len() && tele[k] == reason;
        assert(spec_round5_reasons(c, i)[k] == reason);
    }
    lemma_step5_rounds_contains(c, c.rounds@.len() as int, i, reason);
    assert(spec_step5(c).contains(reason)) by {
        let rounds_part = spec_step5_rounds_upto(c, c.rounds@.len() as int);
        let k = choose|k: int| 0 <= k < rounds_part.len() && rounds_part[k] == reason;
        assert(spec_step5(c)[k] == reason);
    }
    assert(spec_step5(c).len() > 0);
}


/// A starting number stands in the participant list exactly when one
/// of the first `t` score cells carries it.
pub proof fn lemma_bib_list_wdsf_contains(cells: Seq<ScoreCell>, t: int, b: u32)
    requires
        0 <= t <= cells.len(),
    ensures
        bib_list_wdsf(cells, t).contains(b) <==> exists|q: int|
            0 <= q < t && (#[trigger] cells[q]).bib == b,
    decreases t,
{
    if t > 0 {
        lemma_bib_list_wdsf_contains(cells, t - 1, b);
        let prev = bib_list_wdsf(cells, t - 1);
        let cur = bib_list_wdsf(cells, t);
        if cells[t - 1].bib == b {
            assert(cur.contains(b)) by {
                if prev.contains(cells[t - 1].bib) {
                } else {
                    assert(cur[cur.len() - 1] == b);
                }
            }
        } else {
            assert(cur.contains(b) <==> prev.contains(b)) by {
                if !prev.contains(cells[t - 1].bib) {
                    if cur.contains(b) {
                        let q = choose|q: int| 0 <= q < cur.len() && cur[q] == b;
                        assert(q < cur.len() - 1);
                        assert(prev[q] == b);
                    }
                    if prev.contains(b) {
                        let q = choose|q: int| 0 <= q < prev.len() && prev[q] == b;
                        assert(cur[q] == b);
                    }
                }
            }
        }
    }
}

/// Completeness is fragile for score rounds too: deleting any single
/// (judge, entrant) score record of an otherwise complete round
/// leaves the round incomplete, under the same provisos — the
/// record's judge on a roster of at least two distinctly coded
/// judges, and no record present twice.
pub proof fn lemma_completeness_fragile_wdsf(
    cells: Seq<ScoreCell>,
    judges: Seq<Judge>,
    t: int,
)
    requires
        0 <= t < cells.len(),
        wdsf_covered(cells, judges, bib_list_wdsf(cells, cells.len() as int)),
        exists|j: int| 0 <= j < judges.len() && (#[trigger] judges[j]).code@ == cells[t].judge@,
        judges.len() >= 2,
        forall|j1: int, j2: int|
            0 <= j1 < j2 < judges.len() ==> (#[trigger] judges[j1]).code@ != (
            #[trigger] judges[j2]).code@,
        forall|t1: int, t2: int|
            0 <= t1 < t2 < cells.len() ==> !((#[trigger] cells[t1]).judge@ == (
            #[trigger] cells[t2]).judge@ && cells[t1].bib == cells[t2].bib),
    ensures
        !(bib_list_wdsf(cells.remove(t), cells.len() - 1).len() > 0 && wdsf_covered(
            cells.remove(t),
            judges,
            bib_list_wdsf(cells.remove(t), cells.len() - 1),
        )),
{
    let cells2 = cells.remove(t);
    let parts2 = bib_list_wdsf(cells2, cells2.len() as int);
    let jcode = cells[t].judge@;
    let b = cells[t].bib;
    let j = choose|j: int| 0 <= j < judges.len() && (#[trigger] judges[j]).code@ == jcode;
    let j2: int = if j == 0 {
        1
    } else {
        0
    };
    assert(judges[j2].code@ != jcode);

    let parts = bib_list_wdsf(cells, cells.len() as int);
    lemma_bib_list_wdsf_contains(cells, cells.len() as int, b);
    assert(parts.contains(b));
    let bi = choose|bi: int| 0 <= bi < parts.len() && parts[bi] == b;
    assert(has_wdsf_cell(cells, judges[j2].code@, b)) by {
        assert(parts[bi] == b);
    }
    let u = choose|u: int|
        0 <= u < cells.len() && (#[trigger] cells[u]).judge@ == judges[j2].code@ && cells[u].bib
            == b;
    assert(u != t);
    let u2: int = if u < t {
        u
    } else {
        u - 1
    };
    assert(cells2[u2] == cells[u]);
    lemma_bib_list_wdsf_contains(cells2, cells2.len() as int, b);
    assert(parts2.contains(b)) by {
        assert(cells2[u2].bib == b);
    }

    assert(!has_wdsf_cell(cells2, jcode, b)) by {
        if has_wdsf_cell(cells2, jcode, b) {
            let v = choose|v: int|
                0 <= v < cells2.len() && (#[trigger] cells2[v]).judge@ == jcode && cells2[v].bib
                    == b;
            let v2: int = if v < t {
                v
            } else {
                v + 1
            };
            assert(cells2[v] == cells[v2]);
            assert(v2 != t);
            if v2 < t {
                assert(!(cells[v2].judge@ == cells[t].judge@ && cells[v2].bib == cells[t].bib));
            } else {
                assert(!(cells[t].judge@ == cells[v2].judge@ && cells[t].bib == cells[v2].bib));
            }
        }
    }

    if parts2.len() > 0 && wdsf_covered(cells2, judges, parts2) {
        let bi2 = choose|bi2: int| 0 <= bi2 < parts2.len() && parts2[bi2] == b;
        assert(has_wdsf_cell(cells2, judges[j].code@, parts2[bi2]));
    }
}


/// A starting number stands in the participant list exactly when one
/// of the first `t` marking cells carries it.
pub proof fn lemma_bib_list_marking_contains(cells: Seq<MarkingCell>, t: int, b: u32)
    requires
        0 <= t <= cells.len(),
    ensures
        bib_list_marking(cells, t).contains(b) <==> exists|q: int|
            0 <= q < t && (#[trigger] cells[q]).bib == b,
    decreases t,
{
    if t > 0 {
        lemma_bib_list_marking_contains(cells, t - 1, b);
        let prev = bib_list_marking(cells, t - 1);
        let cur = bib_list_marking(cells, t);
        if cells[t - 1].bib == b {
            assert(cur.contains(b)) by {
                if prev.contains(cells[t - 1].bib) {
                } else {
                    assert(cur[cur.len() - 1] == b);
                }
            }
        } else {
            assert(cur.contains(b) <==> prev.contains(b)) by {
                if !prev.contains(cells[t - 1].bib) {
                    if cur.contains(b) {
                        let q = choose|q: int| 0 <= q < cur.len() && cur[q] == b;
                        assert(q < cur.len() - 1);
                        assert(prev[q] == b);
                    }
                    if prev.contains(b) {
                        let q = choose|q: int| 0 <= q < prev.len() && prev[q] == b;
                        assert(cur[q] == b);
                    }
                }
            }
        }
    }
}

/// Completeness is fragile for qualification rounds too: deleting any
/// single marking cell of an otherwise complete round leaves the
/// round incomplete, under the same provisos as for placements.
pub proof fn lemma_completeness_fragile_marking(
    cells: Seq<MarkingCell>,
    judges: Seq<Judge>,
    dances: Seq<Dance>,
    t: int,
)
    requires
        0 <= t < cells.len(),
        marking_covered(cells, judges, bib_list_marking(cells, cells.len() as int), dances),
        exists|j: int| 0 <= j < judges.len() && (#[trigger] judges[j]).code@ == cells[t].judge@,
        dances.contains(cells[t].dance),
        judges.len() >= 2,
        forall|j1: int, j2: int|
            0 <= j1 < j2 < judges.len() ==> (#[trigger] judges[j1]).code@ != (
            #[trigger] judges[j2]).code@,
        forall|t1: int, t2: int|
            0 <= t1 < t2 < cells.len() ==> !((#[trigger] cells[t1]).judge@ == (
            #[trigger] cells[t2]).judge@ && cells[t1].bib == cells[t2].bib && cells[t1].dance
                == cells[t2].dance),
    ensures
        !(bib_list_marking(cells.remove(t), cells.len() - 1).len() > 0 && marking_covered(
            cells.remove(t),
            judges,
            bib_list_marking(cells.remove(t), cells.len() - 1),
            dances,
        )),
{
    let cells2 = cells.remove(t);
    let parts2 = bib_list_marking(cells2, cells2.len() as int);
    let jcode = cells[t].judge@;
    let b = cells[t].bib;
    let d = cells[t].dance;
    let j = choose|j: int| 0 <= j < judges.len() && (#[trigger] judges[j]).code@ == jcode;
    let j2: int = if j == 0 {
        1
    } else {
        0
    };
    assert(judges[j2].code@ != jcode);

    let parts = bib_list_marking(cells, cells.len() as int);
    lemma_bib_list_marking_contains(cells, cells.len() as int, b);
    assert(parts.contains(b));
    let bi = choose|bi: int| 0 <= bi < parts.len() && parts[bi] == b;
    let di = choose|di: int| 0 <= di < dances.len() && dances[di] == d;
    assert(has_marking_cell(cells, judges[j2].code@, b, d)) by {
        assert(parts[bi] == b && dances[di] == d);
    }
    let u = choose|u: int|
        0 <= u < cells.len() && (#[trigger] cells[u]).judge@ == judges[j2].code@ && cells[u].bib
            == b && cells[u].dance == d;
    assert(u != t);
    let u2: int = if u < t {
        u
    } else {
        u - 1
    };
    assert(cells2[u2] == cells[u]);
    lemma_bib_list_marking_contains(cells2, cells2.len() as int, b);
    assert(parts2.contains(b)) by {
        assert(cells2[u2].bib == b);
    }

    assert(!has_marking_cell(cells2, jcode, b, d)) by {
        if has_marking_cell(cells2, jcode, b, d) {
            let v = choose|v: int|
                0 <= v < cells2.len() && (#[trigger] cells2[v]).judge@ == jcode && cells2[v].bib
                    == b && cells2[v].dance == d;
            let v2: int = if v < t {
                v
            } else {
                v + 1
            };
            assert(cells2[v] == cells[v2]);
            assert(v2 != t);
            if v2 < t {
                assert(!(cells[v2].judge@ == cells[t].judge@ && cells[v2].bib == cells[t].bib
                    && cells[v2].dance == cells[t].dance));
            } else {
                assert(!(cells[t].judge@ == cells[v2].judge@ && cells[t].bib == cells[v2].bib
                    && cells[t].dance == cells[v2].dance));
            }
        }
    }

    if parts2.len() > 0 && marking_covered(cells2, judges, parts2, dances) {
        let bi2 = choose|bi2: int| 0 <= bi2 < parts2.len() && parts2[bi2] == b;
        assert(has_marking_cell(cells2, judges[j].code@, parts2[bi2], dances[di]));
    }
}

} // verus!

//! Data model of a fully extracted competition: closed enumerations for
//! the dance, level, style and age bracket vocabularies, the officiating
//! roster, participants, and the three mutually exclusive shapes of
//! per-round judge data.
//!
//! Scores are held in thousandths of a point so that the score-math
//! check is exact integer arithmetic.

use vstd::prelude::*;

verus! {

/// The ten competition dances, in canonical order: the five standard
/// dances first, then the five latin dances.
#[derive(Clone, Copy, Debug, PartialEq, Eq, Structural)]
pub enum Dance {
    SlowWaltz,
    Tango,
    VienneseWaltz,
    SlowFoxtrot,
    Quickstep,
    Samba,
    ChaChaCha,
    Rumba,
    PasoDoble,
    Jive,
}

impl Dance {
    /// Position of the dance in the canonical order.
    pub open spec fn spec_index(self) -> int {
        match self {
            Dance::SlowWaltz => 0,
            Dance::Tango => 1,
            Dance::VienneseWaltz => 2,
            Dance::SlowFoxtrot => 3,
            Dance::Quickstep => 4,
            Dance::Samba => 5,
            Dance::ChaChaCha => 6,
            Dance::Rumba => 7,
            Dance::PasoDoble => 8,
            Dance::Jive => 9,
        }
    }

    /// Position of the dance in the canonical order, used for
    /// deterministic iteration over dance sets.
    pub fn index(self) -> (i: u8)
        ensures
            i as int == self.spec_index(),
    {
        match self {
            Dance::SlowWaltz => 0,
            Dance::Tango => 1,
            Dance::VienneseWaltz => 2,
            Dance::SlowFoxtrot => 3,
            Dance::Quickstep => 4,
            Dance::Samba => 5,
            Dance::ChaChaCha => 6,
            Dance::Rumba => 7,
            Dance::PasoDoble => 8,
            Dance::Jive => 9,
        }
    }
}

/// Skill tier of a competition, from entry level `E` to special class `S`.
#[derive(Clone, Copy, Debug, PartialEq, Eq, Structural)]
pub enum Level {
    E,
    D,
    C,
    B,
    A,
    S,
}

/// The two judged styles.
#[derive(Clone, Copy, Debug, PartialEq, Eq, Structural)]
pub enum Style {
    Standard,
    Latein,
}

/// Competitor age bracket.
#[derive(Clone, Copy, Debug, PartialEq, Eq, Structural)]
pub enum AgeGroup {
    Juv1,
    Juv2,
    Jun1,
    Jun2,
    Youth,
    Adult,
    Adult2,
    Sen1,
    Sen2,
    Sen3,
    Sen4,
    Sen5,
    Senior,
}

/// Whether a starting number belongs to a solo dancer or a couple.
#[derive(Clone, Copy, Debug, PartialEq, Eq, Structural)]
pub enum IdentityType {
    Solo,
    Couple,
}

/// A calendar date as plain year, month and day numbers.
#[derive(Clone, Copy, Debug, PartialEq, Eq, Structural)]
pub struct Date {
    pub year: i32,
    pub month: u32,
    pub day: u32,
}

impl Date {
    /// Month in 1..=12 and day within the month's length, February
    /// being 29 days long exactly in leap years.
    pub open spec fn valid(self) -> bool {
        &&& 1 <= self.month <= 12
        &&& 1 <= self.day
        &&& self.day <= days_in_month(self.year, self.month)
    }
}

/// Gregorian leap-year rule.
pub open spec fn is_leap_year(year: i32) -> bool {
    (year % 4 == 0 && year % 100 != 0) || year % 400 == 0
}

/// Number of days of the given month in the given year.
pub open spec fn days_in_month(year: i32, month: u32) -> u32 {
    if month == 1 || month == 3 || month == 5 || month == 7 || month == 8 || month == 10
        || month == 12 {
        31
    } else if month == 4 || month == 6 || month == 9 || month == 11 {
        30
    } else if month == 2 {
        if is_leap_year(year) {
            29
        } else {
            28
        }
    } else {
        0
    }
}

/// An adjudicator: short unique code, name, optional club.
#[derive(Clone, Debug)]
pub struct Judge {
    pub code: String,
    pub name: String,
    pub club: Option<String>,
}

impl Judge {
    pub fn new(code: String, name: String, club: Option<String>) -> (j: Judge)
        ensures
            j.code == code,
            j.name == name,
            j.club == club,
    {
        Judge { code, name, club }
    }
}

/// A non-judging official (responsible person or assistant).
#[derive(Clone, Debug)]
pub struct CommitteeMember {
    pub name: String,
    pub club: Option<String>,
}

impl CommitteeMember {
    pub fn new(name: String, club: Option<String>) -> (m: CommitteeMember)
        ensures
            m.name == name,
            m.club == club,
    {
        CommitteeMember { name, club }
    }
}

/// The officiating roster of one competition.
#[derive(Clone, Debug)]
pub struct Officials {
    pub responsible_person: Option<CommitteeMember>,
    pub assistant: Option<CommitteeMember>,
    pub judges: Vec<Judge>,
}

impl Officials {
    pub fn new(
        responsible_person: Option<CommitteeMember>,
        assistant: Option<CommitteeMember>,
        judges: Vec<Judge>,
    ) -> (o: Officials)
        ensures
            o.responsible_person == responsible_person,
            o.assistant == assistant,
            o.judges == judges,
    {
        Officials { responsible_person, assistant, judges }
    }
}

/// One entrant: a solo dancer or couple with a unique positive starting
/// number and, once the scrutineer has published results, a final rank.
#[derive(Clone, Debug)]
pub struct Participant {
    pub identity_type: IdentityType,
    pub name_one: String,
    pub name_two: Option<String>,
    pub affiliation: Option<String>,
    pub bib_number: u32,
    pub final_rank: Option<u32>,
}

impl Participant {
    pub fn new(
        identity_type: IdentityType,
        name_one: String,
        bib_number: u32,
        name_two: Option<String>,
        affiliation: Option<String>,
        final_rank: Option<u32>,
    ) -> (p: Participant)
        ensures
            p.identity_type == identity_type,
            p.name_one == name_one,
            p.name_two == name_two,
            p.affiliation == affiliation,
            p.bib_number == bib_number,
            p.final_rank == final_rank,
    {
        Participant { identity_type, name_one, name_two, affiliation, bib_number, final_rank }
    }
}

/// One WDSF adjudication record: four category scores and the reported
/// total, each in thousandths of a point (a score of 8.5 is stored as
/// 8500).
#[derive(Clone, Copy, Debug, PartialEq, Eq, Structural)]
pub struct WDSFScore {
    pub technical_quality: u32,
    pub movement_to_music: u32,
    pub partnering_skills: u32,
    pub choreography: u32,
    pub total: u32,
}

impl WDSFScore {
    pub fn new(
        technical_quality: u32,
        movement_to_music: u32,
        partnering_skills: u32,
        choreography: u32,
        total: u32,
    ) -> (s: WDSFScore)
        ensures
            s.technical_quality == technical_quality,
            s.movement_to_music == movement_to_music,
            s.partnering_skills == partnering_skills,
            s.choreography == choreography,
            s.total == total,
    {
        WDSFScore { technical_quality, movement_to_music, partnering_skills, choreography, total }
    }
}

/// One qualification mark: in `round`, the judge with code `judge`
/// either crossed (`qualified`) or did not cross the entrant `bib`
/// for `dance`.
#[derive(Clone, Debug)]
pub struct MarkingCell {
    pub judge: String,
    pub bib: u32,
    pub dance: Dance,
    pub qualified: bool,
}

/// One final-table placement: the judge with code `judge` placed the
/// entrant `bib` at `placement` (1-based) in `dance`.
#[derive(Clone, Debug)]
pub struct PlacementCell {
    pub judge: String,
    pub bib: u32,
    pub dance: Dance,
    pub placement: u32,
}

/// One WDSF score record: the judge with code `judge` scored the
/// entrant `bib`; WDSF records are not decomposed by dance.
#[derive(Clone, Debug)]
pub struct ScoreCell {
    pub judge: String,
    pub bib: u32,
    pub score: WDSFScore,
}

/// The three mutually exclusive shapes of judge data a round can carry.
#[derive(Clone, Debug)]
pub enum RoundData {
    /// Qualification crosses: judge, entrant, dance, qualified or not.
    Marking(Vec<MarkingCell>),
    /// Per-dance integer placements, as published in a DTV final table.
    Dtv(Vec<PlacementCell>),
    /// WDSF category scores, one record per judge and entrant.
    Wdsf(Vec<ScoreCell>),
}

/// One round of a competition: its name and the judge data it carries.
#[derive(Clone, Debug)]
pub struct Round {
    pub name: String,
    pub data: RoundData,
}

impl Round {
    pub fn new(name: String, data: RoundData) -> (r: Round)
        ensures
            r.name == name,
            r.data == data,
    {
        Round { name, data }
    }
}

/// A single competition: classification, contested dances, the
/// policy-derived minimum dance count, officials, participants and the
/// rounds in order, earliest first.
#[derive(Clone, Debug)]
pub struct Competition {
    pub level: Level,
    pub age_group: AgeGroup,
    pub style: Style,
    pub dances: Vec<Dance>,
    pub min_dances: u32,
    pub officials: Officials,
    pub participants: Vec<Participant>,
    pub rounds: Vec<Round>,
}

impl Competition {
    pub fn new(
        level: Level,
        age_group: AgeGroup,
        style: Style,
        dances: Vec<Dance>,
        min_dances: u32,
        officials: Officials,
        participants: Vec<Participant>,
        rounds: Vec<Round>,
    ) -> (c: Competition)
        ensures
            c.level == level,
            c.age_group == age_group,
            c.style == style,
            c.dances == dances,
            c.min_dances == min_dances,
            c.officials == officials,
            c.participants == participants,
            c.rounds == rounds,
    {
        Competition { level, age_group, style, dances, min_dances, officials, participants, rounds }
    }
}

/// An event: metadata plus the competitions it hosted.
#[derive(Clone, Debug)]
pub struct Event {
    pub name: String,
    pub date: Option<Date>,
    pub organizer: Option<String>,
    pub hosting_club: Option<String>,
    pub competitions_list: Vec<Competition>,
}

impl Event {
    pub fn new(
        name: String,
        date: Option<Date>,
        organizer: Option<String>,
        hosting_club: Option<String>,
        competitions_list: Vec<Competition>,
    ) -> (e: Event)
        ensures
            e.name == name,
            e.date == date,
            e.organizer == organizer,
            e.hosting_club == hosting_club,
            e.competitions_list == competitions_list,
    {
        Event { name, date, organizer, hosting_club, competitions_list }
    }
}

} // verus!

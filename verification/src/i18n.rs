//! Competition ruleset vocabulary: the minimum-dances policy and the
//! classifiers for round names and table markers.

use vstd::prelude::*;
use crate::models::{AgeGroup, Dance, Date, Level, Style};
use crate::text::{contains_at, contains_seq, lower, spec_digits, spec_parse_u32, trimmed};
use crate::text::{contains_lower, contains_str, parse_u32, starts_with_lower, str_eq, trim_eq, u64_to_string};

verus! {

/// The minimum number of dances a competition of the given level must
/// contest on the given date.  The rule change taking effect in 2026
/// raises the requirement for levels D and C by one dance.
pub open spec fn spec_min_dances(level: Level, year: int) -> u32 {
    match level {
        Level::E => 3,
        Level::D => if year >= 2026 { 4 } else { 3 },
        Level::C => if year >= 2026 { 5 } else { 4 },
        Level::B => 5,
        Level::A => 5,
        Level::S => 5,
    }
}

/// Returns the minimum number of dances required for a given level and
/// date; total, and never errors.
pub fn get_min_dances(level: Level, date: Date) -> (n: u32)
    ensures
        n == spec_min_dances(level, date.year as int),
{
    let is_2026_or_later = date.year >= 2026;
    match (level, is_2026_or_later) {
        (Level::D, true) => 4,
        (Level::D, false) => 3,
        (Level::C, true) => 5,
        (Level::C, false) => 4,
        (Level::E, _) => 3,
        (Level::B, _) => 5,
        (Level::A, _) => 5,
        (Level::S, _) => 5,
    }
}

/// A round name marks a redance (repechage) round.
pub open spec fn spec_is_redance(name: Seq<char>) -> bool {
    ||| contains_seq(lower(name), "redance"@)
    ||| contains_seq(lower(name), "hoffnung"@)
    ||| contains_seq(lower(name), "h-lauf"@)
}

/// Whether the round name, case-insensitively, marks a redance
/// (repechage) round.
pub fn is_redance(name: &str) -> (r: bool)
    ensures
        r == spec_is_redance(name@),
{
    contains_lower(name, "redance") || contains_lower(name, "hoffnung") || contains_lower(
        name,
        "h-lauf",
    )
}

/// The level a configuration identifier denotes, matched case-insensitively.
pub open spec fn spec_parse_level(s: Seq<char>) -> Option<Level> {
    if lower(s) == lower("E"@) {
        Some(Level::E)
    } else if lower(s) == lower("D"@) {
        Some(Level::D)
    } else if lower(s) == lower("C"@) {
        Some(Level::C)
    } else if lower(s) == lower("B"@) {
        Some(Level::B)
    } else if lower(s) == lower("A"@) {
        Some(Level::A)
    } else if lower(s) == lower("S"@) {
        Some(Level::S)
    } else {
        None
    }
}

/// Maps the string, case-insensitively, to its Level value.
pub fn parse_level(s: &str) -> (r: Option<Level>)
    ensures
        r == spec_parse_level(s@),
{
    if crate::text::eq_ignore_case(s, "E") {
        Some(Level::E)
    } else if crate::text::eq_ignore_case(s, "D") {
        Some(Level::D)
    } else if crate::text::eq_ignore_case(s, "C") {
        Some(Level::C)
    } else if crate::text::eq_ignore_case(s, "B") {
        Some(Level::B)
    } else if crate::text::eq_ignore_case(s, "A") {
        Some(Level::A)
    } else if crate::text::eq_ignore_case(s, "S") {
        Some(Level::S)
    } else {
        None
    }
}

/// The style a configuration identifier denotes, matched case-insensitively.
pub open spec fn spec_parse_style(s: Seq<char>) -> Option<Style> {
    if lower(s) == lower("std"@) {
        Some(Style::Standard)
    } else if lower(s) == lower("standard"@) {
        Some(Style::Standard)
    } else if lower(s) == lower("lat"@) {
        Some(Style::Latein)
    } else if lower(s) == lower("latin"@) {
        Some(Style::Latein)
    } else if lower(s) == lower("latein"@) {
        Some(Style::Latein)
    } else {
        None
    }
}

/// Maps the string, case-insensitively, to its Style value.
pub fn parse_style(s: &str) -> (r: Option<Style>)
    ensures
        r == spec_parse_style(s@),
{
    if crate::text::eq_ignore_case(s, "std") {
        Some(Style::Standard)
    } else if crate::text::eq_ignore_case(s, "standard") {
        Some(Style::Standard)
    } else if crate::text::eq_ignore_case(s, "lat") {
        Some(Style::Latein)
    } else if crate::text::eq_ignore_case(s, "latin") {
        Some(Style::Latein)
    } else if crate::text::eq_ignore_case(s, "latein") {
        Some(Style::Latein)
    } else {
        None
    }
}

/// The age group a configuration identifier denotes, matched case-insensitively.
pub open spec fn spec_parse_age_group(s: Seq<char>) -> Option<AgeGroup> {
    if lower(s) == lower("juv_1"@) {
        Some(AgeGroup::Juv1)
    } else if lower(s) == lower("juv_2"@) {
        Some(AgeGroup::Juv2)
    } else if lower(s) == lower("jun_1"@) {
        Some(AgeGroup::Jun1)
    } else if lower(s) == lower("jun_2"@) {
        Some(AgeGroup::Jun2)
    } else if lower(s) == lower("youth"@) {
        Some(AgeGroup::Youth)
    } else if lower(s) == lower("adult"@) {
        Some(AgeGroup::Adult)
    } else if lower(s) == lower("adult_2"@) {
        Some(AgeGroup::Adult2)
    } else if lower(s) == lower("sen_1"@) {
        Some(AgeGroup::Sen1)
    } else if lower(s) == lower("sen_2"@) {
        Some(AgeGroup::Sen2)
    } else if lower(s) == lower("sen_3"@) {
        Some(AgeGroup::Sen3)
    } else if lower(s) == lower("sen_4"@) {
        Some(AgeGroup::Sen4)
    } else if lower(s) == lower("sen_5"@) {
        Some(AgeGroup::Sen5)
    } else if lower(s) == lower("senior"@) {
        Some(AgeGroup::Senior)
    } else {
        None
    }
}

/// Maps the string, case-insensitively, to its AgeGroup value.
pub fn parse_age_group(s: &str) -> (r: Option<AgeGroup>)
    ensures
        r == spec_parse_age_group(s@),
{
    if crate::text::eq_ignore_case(s, "juv_1") {
        Some(AgeGroup::Juv1)
    } else if crate::text::eq_ignore_case(s, "juv_2") {
        Some(AgeGroup::Juv2)
    } else if crate::text::eq_ignore_case(s, "jun_1") {
        Some(AgeGroup::Jun1)
    } else if crate::text::eq_ignore_case(s, "jun_2") {
        Some(AgeGroup::Jun2)
    } else if crate::text::eq_ignore_case(s, "youth") {
        Some(AgeGroup::Youth)
    } else if crate::text::eq_ignore_case(s, "adult") {
        Some(AgeGroup::Adult)
    } else if crate::text::eq_ignore_case(s, "adult_2") {
        Some(AgeGroup::Adult2)
    } else if crate::text::eq_ignore_case(s, "sen_1") {
        Some(AgeGroup::Sen1)
    } else if crate::text::eq_ignore_case(s, "sen_2") {
        Some(AgeGroup::Sen2)
    } else if crate::text::eq_ignore_case(s, "sen_3") {
        Some(AgeGroup::Sen3)
    } else if crate::text::eq_ignore_case(s, "sen_4") {
        Some(AgeGroup::Sen4)
    } else if crate::text::eq_ignore_case(s, "sen_5") {
        Some(AgeGroup::Sen5)
    } else if crate::text::eq_ignore_case(s, "senior") {
        Some(AgeGroup::Senior)
    } else {
        None
    }
}

/// The age group a source-document label denotes, matched case-insensitively.
pub open spec fn spec_map_age_group(s: Seq<char>) -> Option<AgeGroup> {
    if lower(s) == lower("Hgr"@) {
        Some(AgeGroup::Adult)
    } else if lower(s) == lower("Hgr."@) {
        Some(AgeGroup::Adult)
    } else if lower(s) == lower("Hauptgruppe"@) {
        Some(AgeGroup::Adult)
    } else if lower(s) == lower("Adult"@) {
        Some(AgeGroup::Adult)
    } else if lower(s) == lower("Adults"@) {
        Some(AgeGroup::Adult)
    } else if lower(s) == lower("Rising Stars"@) {
        Some(AgeGroup::Adult)
    } else if lower(s) == lower("Hgr.II"@) {
        Some(AgeGroup::Adult2)
    } else if lower(s) == lower("Hgr II"@) {
        Some(AgeGroup::Adult2)
    } else if lower(s) == lower("Hauptgruppe II"@) {
        Some(AgeGroup::Adult2)
    } else if lower(s) == lower("Sen"@) {
        Some(AgeGroup::Senior)
    } else if lower(s) == lower("Sen."@) {
        Some(AgeGroup::Senior)
    } else if lower(s) == lower("Mas."@) {
        Some(AgeGroup::Senior)
    } else if lower(s) == lower("Sen.I"@) {
        Some(AgeGroup::Sen1)
    } else if lower(s) == lower("Mas.I"@) {
        Some(AgeGroup::Sen1)
    } else if lower(s) == lower("Senioren I"@) {
        Some(AgeGroup::Sen1)
    } else if lower(s) == lower("Sen.II"@) {
        Some(AgeGroup::Sen2)
    } else if lower(s) == lower("Mas.II"@) {
        Some(AgeGroup::Sen2)
    } else if lower(s) == lower("Senioren II"@) {
        Some(AgeGroup::Sen2)
    } else if lower(s) == lower("Sen.III"@) {
        Some(AgeGroup::Sen3)
    } else if lower(s) == lower("Mas.III"@) {
        Some(AgeGroup::Sen3)
    } else if lower(s) == lower("Senioren III"@) {
        Some(AgeGroup::Sen3)
    } else if lower(s) == lower("Sen.IV"@) {
        Some(AgeGroup::Sen4)
    } else if lower(s) == lower("Mas.IV"@) {
        Some(AgeGroup::Sen4)
    } else if lower(s) == lower("Senioren IV"@) {
        Some(AgeGroup::Sen4)
    } else if lower(s) == lower("Sen.V"@) {
        Some(AgeGroup::Sen5)
    } else if lower(s) == lower("Mas.V"@) {
        Some(AgeGroup::Sen5)
    } else if lower(s) == lower("Senioren V"@) {
        Some(AgeGroup::Sen5)
    } else if lower(s) == lower("Kinder I"@) {
        Some(AgeGroup::Juv1)
    } else if lower(s) == lower("Kin.I"@) {
        Some(AgeGroup::Juv1)
    } else if lower(s) == lower("Kinder II"@) {
        Some(AgeGroup::Juv2)
    } else if lower(s) == lower("Kin.II"@) {
        Some(AgeGroup::Juv2)
    } else if lower(s) == lower("Junioren I"@) {
        Some(AgeGroup::Jun1)
    } else if lower(s) == lower("Jun.I"@) {
        Some(AgeGroup::Jun1)
    } else if lower(s) == lower("Junioren II"@) {
        Some(AgeGroup::Jun2)
    } else if lower(s) == lower("Jun.II"@) {
        Some(AgeGroup::Jun2)
    } else if lower(s) == lower("Jugend"@) {
        Some(AgeGroup::Youth)
    } else if lower(s) == lower("Jug."@) {
        Some(AgeGroup::Youth)
    } else {
        None
    }
}

/// Maps the string, case-insensitively, to its AgeGroup value.
pub fn map_age_group(s: &str) -> (r: Option<AgeGroup>)
    ensures
        r == spec_map_age_group(s@),
{
    if crate::text::eq_ignore_case(s, "Hgr") {
        Some(AgeGroup::Adult)
    } else if crate::text::eq_ignore_case(s, "Hgr.") {
        Some(AgeGroup::Adult)
    } else if crate::text::eq_ignore_case(s, "Hauptgruppe") {
        Some(AgeGroup::Adult)
    } else if crate::text::eq_ignore_case(s, "Adult") {
        Some(AgeGroup::Adult)
    } else if crate::text::eq_ignore_case(s, "Adults") {
        Some(AgeGroup::Adult)
    } else if crate::text::eq_ignore_case(s, "Rising Stars") {
        Some(AgeGroup::Adult)
    } else if crate::text::eq_ignore_case(s, "Hgr.II") {
        Some(AgeGroup::Adult2)
    } else if crate::text::eq_ignore_case(s, "Hgr II") {
        Some(AgeGroup::Adult2)
    } else if crate::text::eq_ignore_case(s, "Hauptgruppe II") {
        Some(AgeGroup::Adult2)
    } else if crate::text::eq_ignore_case(s, "Sen") {
        Some(AgeGroup::Senior)
    } else if crate::text::eq_ignore_case(s, "Sen.") {
        Some(AgeGroup::Senior)
    } else if crate::text::eq_ignore_case(s, "Mas.") {
        Some(AgeGroup::Senior)
    } else if crate::text::eq_ignore_case(s, "Sen.I") {
        Some(AgeGroup::Sen1)
    } else if crate::text::eq_ignore_case(s, "Mas.I") {
        Some(AgeGroup::Sen1)
    } else if crate::text::eq_ignore_case(s, "Senioren I") {
        Some(AgeGroup::Sen1)
    } else if crate::text::eq_ignore_case(s, "Sen.II") {
        Some(AgeGroup::Sen2)
    } else if crate::text::eq_ignore_case(s, "Mas.II") {
        Some(AgeGroup::Sen2)
    } else if crate::text::eq_ignore_case(s, "Senioren II") {
        Some(AgeGroup::Sen2)
    } else if crate::text::eq_ignore_case(s, "Sen.III") {
        Some(AgeGroup::Sen3)
    } else if crate::text::eq_ignore_case(s, "Mas.III") {
        Some(AgeGroup::Sen3)
    } else if crate::text::eq_ignore_case(s, "Senioren III") {
        Some(AgeGroup::Sen3)
    } else if crate::text::eq_ignore_case(s, "Sen.IV") {
        Some(AgeGroup::Sen4)
    } else if crate::text::eq_ignore_case(s, "Mas.IV") {
        Some(AgeGroup::Sen4)
    } else if crate::text::eq_ignore_case(s, "Senioren IV") {
        Some(AgeGroup::Sen4)
    } else if crate::text::eq_ignore_case(s, "Sen.V") {
        Some(AgeGroup::Sen5)
    } else if crate::text::eq_ignore_case(s, "Mas.V") {
        Some(AgeGroup::Sen5)
    } else if crate::text::eq_ignore_case(s, "Senioren V") {
        Some(AgeGroup::Sen5)
    } else if crate::text::eq_ignore_case(s, "Kinder I") {
        Some(AgeGroup::Juv1)
    } else if crate::text::eq_ignore_case(s, "Kin.I") {
        Some(AgeGroup::Juv1)
    } else if crate::text::eq_ignore_case(s, "Kinder II") {
        Some(AgeGroup::Juv2)
    } else if crate::text::eq_ignore_case(s, "Kin.II") {
        Some(AgeGroup::Juv2)
    } else if crate::text::eq_ignore_case(s, "Junioren I") {
        Some(AgeGroup::Jun1)
    } else if crate::text::eq_ignore_case(s, "Jun.I") {
        Some(AgeGroup::Jun1)
    } else if crate::text::eq_ignore_case(s, "Junioren II") {
        Some(AgeGroup::Jun2)
    } else if crate::text::eq_ignore_case(s, "Jun.II") {
        Some(AgeGroup::Jun2)
    } else if crate::text::eq_ignore_case(s, "Jugend") {
        Some(AgeGroup::Youth)
    } else if crate::text::eq_ignore_case(s, "Jug.") {
        Some(AgeGroup::Youth)
    } else {
        None
    }
}

/// The style a source-document label denotes, matched case-insensitively.
pub open spec fn spec_map_discipline(s: Seq<char>) -> Option<Style> {
    if lower(s) == lower("Standard"@) {
        Some(Style::Standard)
    } else if lower(s) == lower("Latein"@) {
        Some(Style::Latein)
    } else if lower(s) == lower("Latin"@) {
        Some(Style::Latein)
    } else {
        None
    }
}

/// Maps the string, case-insensitively, to its Style value.
pub fn map_discipline(s: &str) -> (r: Option<Style>)
    ensures
        r == spec_map_discipline(s@),
{
    if crate::text::eq_ignore_case(s, "Standard") {
        Some(Style::Standard)
    } else if crate::text::eq_ignore_case(s, "Latein") {
        Some(Style::Latein)
    } else if crate::text::eq_ignore_case(s, "Latin") {
        Some(Style::Latein)
    } else {
        None
    }
}

/// The month number a name denotes, matched case-insensitively.
pub open spec fn spec_map_month(s: Seq<char>) -> Option<u32> {
    if lower(s) == lower("jan"@) {
        Some(1u32)
    } else if lower(s) == lower("januar"@) {
        Some(1u32)
    } else if lower(s) == lower("feb"@) {
        Some(2u32)
    } else if lower(s) == lower("februar"@) {
        Some(2u32)
    } else if lower(s) == lower("mar"@) {
        Some(3u32)
    } else if lower(s) == lower("maerz"@) {
        Some(3u32)
    } else if lower(s) == lower("apr"@) {
        Some(4u32)
    } else if lower(s) == lower("april"@) {
        Some(4u32)
    } else if lower(s) == lower("may"@) {
        Some(5u32)
    } else if lower(s) == lower("mai"@) {
        Some(5u32)
    } else if lower(s) == lower("jun"@) {
        Some(6u32)
    } else if lower(s) == lower("juni"@) {
        Some(6u32)
    } else if lower(s) == lower("jul"@) {
        Some(7u32)
    } else if lower(s) == lower("juli"@) {
        Some(7u32)
    } else if lower(s) == lower("aug"@) {
        Some(8u32)
    } else if lower(s) == lower("august"@) {
        Some(8u32)
    } else if lower(s) == lower("sep"@) {
        Some(9u32)
    } else if lower(s) == lower("september"@) {
        Some(9u32)
    } else if lower(s) == lower("oct"@) {
        Some(10u32)
    } else if lower(s) == lower("oktober"@) {
        Some(10u32)
    } else if lower(s) == lower("nov"@) {
        Some(11u32)
    } else if lower(s) == lower("november"@) {
        Some(11u32)
    } else if lower(s) == lower("dec"@) {
        Some(12u32)
    } else if lower(s) == lower("dezember"@) {
        Some(12u32)
    } else {
        None
    }
}

/// Maps a month name, case-insensitively, to its number.
pub fn map_month(mon_str: &str) -> (r: Option<u32>)
    ensures
        r == spec_map_month(mon_str@),
{
    if crate::text::eq_ignore_case(mon_str, "jan") {
        Some(1)
    } else if crate::text::eq_ignore_case(mon_str, "januar") {
        Some(1)
    } else if crate::text::eq_ignore_case(mon_str, "feb") {
        Some(2)
    } else if crate::text::eq_ignore_case(mon_str, "februar") {
        Some(2)
    } else if crate::text::eq_ignore_case(mon_str, "mar") {
        Some(3)
    } else if crate::text::eq_ignore_case(mon_str, "maerz") {
        Some(3)
    } else if crate::text::eq_ignore_case(mon_str, "apr") {
        Some(4)
    } else if crate::text::eq_ignore_case(mon_str, "april") {
        Some(4)
    } else if crate::text::eq_ignore_case(mon_str, "may") {
        Some(5)
    } else if crate::text::eq_ignore_case(mon_str, "mai") {
        Some(5)
    } else if crate::text::eq_ignore_case(mon_str, "jun") {
        Some(6)
    } else if crate::text::eq_ignore_case(mon_str, "juni") {
        Some(6)
    } else if crate::text::eq_ignore_case(mon_str, "jul") {
        Some(7)
    } else if crate::text::eq_ignore_case(mon_str, "juli") {
        Some(7)
    } else if crate::text::eq_ignore_case(mon_str, "aug") {
        Some(8)
    } else if crate::text::eq_ignore_case(mon_str, "august") {
        Some(8)
    } else if crate::text::eq_ignore_case(mon_str, "sep") {
        Some(9)
    } else if crate::text::eq_ignore_case(mon_str, "september") {
        Some(9)
    } else if crate::text::eq_ignore_case(mon_str, "oct") {
        Some(10)
    } else if crate::text::eq_ignore_case(mon_str, "oktober") {
        Some(10)
    } else if crate::text::eq_ignore_case(mon_str, "nov") {
        Some(11)
    } else if crate::text::eq_ignore_case(mon_str, "november") {
        Some(11)
    } else if crate::text::eq_ignore_case(mon_str, "dec") {
        Some(12)
    } else if crate::text::eq_ignore_case(mon_str, "dezember") {
        Some(12)
    } else {
        None
    }
}


/// A round name is generic: it carries no more information than a
/// running number (German "Runde" or English "round ...").
pub open spec fn spec_is_generic_round_name(name: Seq<char>) -> bool {
    ||| contains_seq(lower(name), "runde"@)
    ||| contains_at(lower(name), "round"@, 0)
}

/// Whether the round name, case-insensitively, is generic.
pub fn is_generic_round_name(name: &str) -> (r: bool)
    ensures
        r == spec_is_generic_round_name(name@),
{
    contains_lower(name, "runde") || starts_with_lower(name, "round")
}

/// A table name marks a start or entry list rather than a judged
/// round.
pub open spec fn spec_should_skip_round(name: Seq<char>) -> bool {
    ||| contains_seq(lower(name), "startliste"@)
    ||| contains_seq(lower(name), "meldeliste"@)
}

/// Whether the table name, case-insensitively, marks a start or entry
/// list to be skipped rather than a judged round.
pub fn should_skip_round(name: &str) -> (r: bool)
    ensures
        r == spec_should_skip_round(name@),
{
    contains_lower(name, "startliste") || contains_lower(name, "meldeliste")
}

/// A round name marks the final round.
pub open spec fn spec_is_final_round(name: Seq<char>) -> bool {
    ||| contains_seq(lower(name), "endrunde"@)
    ||| contains_seq(lower(name), "final"@)
}

/// Whether the round name, case-insensitively, marks the final round.
pub fn is_final_round(name: &str) -> (r: bool)
    ensures
        r == spec_is_final_round(name@),
{
    contains_lower(name, "endrunde") || contains_lower(name, "final")
}

/// A label marks a result table.
pub open spec fn spec_is_result_marker(s: Seq<char>) -> bool {
    ||| contains_seq(lower(s), "ergebnis"@)
    ||| contains_seq(lower(s), "result"@)
}

/// Whether the label, case-insensitively, marks a result table.
pub fn is_result_marker(s: &str) -> (r: bool)
    ensures
        r == spec_is_result_marker(s@),
{
    contains_lower(s, "ergebnis") || contains_lower(s, "result")
}

/// A round identifier denotes the final round: the letter `E`, up to
/// surrounding whitespace.
pub open spec fn spec_is_final_id(s: Seq<char>) -> bool {
    trimmed(s) == "E"@
}

/// Whether the round identifier denotes the final round.
pub fn is_final_id(s: &str) -> (r: bool)
    ensures
        r == spec_is_final_id(s@),
{
    trim_eq(s, "E")
}

/// Whether the label marks the organizer line of a source document.
pub fn is_organizer_marker(s: &str) -> (r: bool)
    ensures
        r == contains_seq(s@, "Veranstalter"@),
{
    contains_str(s, "Veranstalter")
}

/// Whether the label marks the hosting-club line of a source
/// document.
pub fn is_hosting_club_marker(s: &str) -> (r: bool)
    ensures
        r == contains_seq(s@, "Ausrichter"@),
{
    contains_str(s, "Ausrichter")
}

/// The canonical name of the synthetic result table.
pub fn get_result_table_name() -> (r: String)
    ensures
        r@ == "Ergebnis"@,
{
    "Ergebnis".to_owned()
}

/// The canonical identifier of an officiating role, `Turnierleiter`
/// being the responsible person and `Beisitzer` the assistant.
pub open spec fn spec_map_role(s: Seq<char>) -> Option<Seq<char>> {
    if s == "Turnierleiter"@ {
        Some("responsible_person"@)
    } else if s == "Beisitzer"@ {
        Some("assistant"@)
    } else {
        None
    }
}

/// Maps a source-document role label to its canonical identifier.
pub fn map_role(s: &str) -> (r: Option<String>)
    ensures
        match r {
            Some(x) => spec_map_role(s@) == Some(x@),
            None => spec_map_role(s@) is None,
        },
{
    if str_eq(s, "Turnierleiter") {
        Some(String::from_str("responsible_person"))
    } else if str_eq(s, "Beisitzer") {
        Some(String::from_str("assistant"))
    } else {
        None
    }
}

/// The canonical round name a free-form name denotes: preliminary
/// round, numbered intermediate rounds, or the final.
pub open spec fn spec_parse_round_name(name: Seq<char>) -> Option<Seq<char>> {
    let low = lower(name);
    if contains_seq(low, "vorrunde"@) {
        Some("Vorrunde"@)
    } else if contains_seq(low, "zwischenrunde"@) {
        if contains_seq(low, "1."@) || contains_seq(low, "erste"@) {
            Some("1. Zwischenrunde"@)
        } else if contains_seq(low, "2."@) || contains_seq(low, "zweite"@) {
            Some("2. Zwischenrunde"@)
        } else if contains_seq(low, "3."@) || contains_seq(low, "dritte"@) {
            Some("3. Zwischenrunde"@)
        } else {
            Some("Zwischenrunde"@)
        }
    } else if contains_seq(low, "endrunde"@) || contains_seq(low, "finale"@) || contains_seq(
        low,
        "final"@,
    ) {
        Some("Endrunde"@)
    } else {
        None
    }
}

/// Maps a free-form round name, case-insensitively, to its canonical
/// name.
pub fn parse_round_name(name: &str) -> (r: Option<String>)
    ensures
        match r {
            Some(x) => spec_parse_round_name(name@) == Some(x@),
            None => spec_parse_round_name(name@) is None,
        },
{
    if contains_lower(name, "vorrunde") {
        Some(String::from_str("Vorrunde"))
    } else if contains_lower(name, "zwischenrunde") {
        if contains_lower(name, "1.") || contains_lower(name, "erste") {
            Some(String::from_str("1. Zwischenrunde"))
        } else if contains_lower(name, "2.") || contains_lower(name, "zweite") {
            Some(String::from_str("2. Zwischenrunde"))
        } else if contains_lower(name, "3.") || contains_lower(name, "dritte") {
            Some(String::from_str("3. Zwischenrunde"))
        } else {
            Some(String::from_str("Zwischenrunde"))
        }
    } else if contains_lower(name, "endrunde") || contains_lower(name, "finale")
        || contains_lower(name, "final") {
        Some(String::from_str("Endrunde"))
    } else {
        None
    }
}

/// Maps a free-form round name, case-insensitively, to its canonical
/// name, exactly as `parse_round_name` does.
pub fn canonicalize_round_name(name: &str) -> (r: Option<String>)
    ensures
        match r {
            Some(x) => spec_parse_round_name(name@) == Some(x@),
            None => spec_parse_round_name(name@) is None,
        },
{
    parse_round_name(name)
}

/// The round name a numeric round identifier denotes: `E` is the
/// final, 1 the preliminary round, a larger number `n` the
/// `n - 1`-th intermediate round; anything else stands for itself.
pub open spec fn spec_round_name_from_id(p: Seq<char>) -> Seq<char> {
    if spec_is_final_id(p) {
        "Endrunde"@
    } else {
        match spec_parse_u32(p) {
            Some(n) => if n == 1 {
                "Vorrunde"@
            } else if n > 1 {
                spec_digits(n - 1) + ". Zwischenrunde"@
            } else {
                p
            },
            None => p,
        }
    }
}

/// Maps a numeric round identifier to its round name.
pub fn get_round_name_from_id(p: &str) -> (r: String)
    ensures
        r@ == spec_round_name_from_id(p@),
{
    if is_final_id(p) {
        return String::from_str("Endrunde");
    }
    match parse_u32(p) {
        Some(n) => {
            if n == 1 {
                String::from_str("Vorrunde")
            } else if n > 1 {
                u64_to_string((n - 1) as u64).concat(". Zwischenrunde")
            } else {
                p.to_owned()
            }
        },
        None => p.to_owned(),
    }
}

/// The canonical WDSF round name by position: the last round is the
/// final, the one before the semifinal, the one before that the
/// quarterfinal; a name that already marks the final stays the final,
/// and any other name stands for itself.
pub open spec fn spec_normalize_wdsf_round_name(name: Seq<char>, i: int, num_rounds: int) -> Seq<
    char,
> {
    if spec_is_final_round(name) {
        "Final"@
    } else if num_rounds >= 3 && i == num_rounds - 1 {
        "Final"@
    } else if num_rounds >= 3 && i == num_rounds - 2 {
        "Semifinal"@
    } else if num_rounds >= 3 && i == num_rounds - 3 {
        "Quarterfinal"@
    } else if num_rounds == 2 && i == 1 {
        "Final"@
    } else if num_rounds == 2 && i == 0 {
        "Semifinal"@
    } else {
        name
    }
}

/// Normalizes a WDSF round name by its position among the rounds.
pub fn normalize_wdsf_round_name(name: &str, i: usize, num_rounds: usize) -> (r: String)
    ensures
        r@ == spec_normalize_wdsf_round_name(name@, i as int, num_rounds as int),
{
    if is_final_round(name) {
        return String::from_str("Final");
    }
    if num_rounds >= 3 {
        if i == num_rounds - 1 {
            return String::from_str("Final");
        }
        if i == num_rounds - 2 {
            return String::from_str("Semifinal");
        }
        if i == num_rounds - 3 {
            return String::from_str("Quarterfinal");
        }
    } else if num_rounds == 2 {
        if i == num_rounds - 1 {
            return String::from_str("Final");
        }
        if i == num_rounds - 2 {
            return String::from_str("Semifinal");
        }
    }
    name.to_owned()
}

/// The generic name of the round at position `i`.
pub fn get_generic_round_name(i: usize) -> (r: String)
    ensures
        r@ == "Runde "@ + spec_digits(i as int),
{
    "Runde ".to_owned().concat(u64_to_string(i as u64).as_str())
}

/// A single dance is named by a label when one of its abbreviations
/// or names occurs, case-insensitively; the slow foxtrot abbreviation
/// `SF` is only accepted away from the federation acronym `WDSF`.
pub open spec fn spec_dance_named(s: Seq<char>, d: Dance) -> bool {
    let low = lower(s);
    match d {
        Dance::SlowWaltz => contains_seq(low, "sw"@) || contains_seq(low, "lw"@) || contains_seq(
            low,
            "walzer"@,
        ),
        Dance::Tango => contains_seq(low, "tg"@) || contains_seq(low, "tango"@),
        Dance::VienneseWaltz => contains_seq(low, "vw"@) || contains_seq(low, "wiener"@)
            || contains_seq(low, "ww"@),
        Dance::SlowFoxtrot => (contains_seq(low, "sf"@) && !contains_seq(low, "wdsf"@))
            || contains_seq(low, "slow"@) || contains_seq(low, "fox"@),
        Dance::Quickstep => contains_seq(low, "qs"@) || contains_seq(low, "qu"@) || contains_seq(
            low,
            "quick"@,
        ),
        Dance::Samba => contains_seq(low, "sb"@) || contains_seq(low, "sa"@) || contains_seq(
            low,
            "samba"@,
        ),
        Dance::ChaChaCha => contains_seq(low, "cc"@) || contains_seq(low, "cha"@),
        Dance::Rumba => contains_seq(low, "rb"@) || contains_seq(low, "ru"@) || contains_seq(
            low,
            "rumba"@,
        ),
        Dance::PasoDoble => contains_seq(low, "pd"@) || contains_seq(low, "paso"@),
        Dance::Jive => contains_seq(low, "jv"@) || contains_seq(low, "ji"@) || contains_seq(
            low,
            "jive"@,
        ),
    }
}

/// The five standard dances in canonical order.
pub open spec fn spec_standard_dances() -> Seq<Dance> {
    seq![
        Dance::SlowWaltz,
        Dance::Tango,
        Dance::VienneseWaltz,
        Dance::SlowFoxtrot,
        Dance::Quickstep,
    ]
}

/// The five latin dances in canonical order.
pub open spec fn spec_latin_dances() -> Seq<Dance> {
    seq![Dance::Samba, Dance::ChaChaCha, Dance::Rumba, Dance::PasoDoble, Dance::Jive]
}

/// The dances a label names, in canonical order: the individually
/// named dances, or, when none is named, the full standard or latin
/// set when the label names the style.
pub open spec fn spec_parse_dances(s: Seq<char>) -> Seq<Dance> {
    let named = spec_named_dances(s);
    if named.len() > 0 {
        named
    } else if contains_seq(lower(s), "standard"@) {
        spec_standard_dances()
    } else if contains_seq(lower(s), "latein"@) || contains_seq(lower(s), "latin"@) {
        spec_latin_dances()
    } else {
        Seq::empty()
    }
}

/// The dances a label names individually, in canonical order.
#[verifier::rlimit(100)]
fn named_dances(s: &str) -> (r: Vec<Dance>)
    ensures
        r@ == spec_named_dances(s@),
{
    let mut named: Vec<Dance> = Vec::new();
    proof {
        assert(named@ =~= spec_named_upto(s@, 0));
    }
    if contains_lower(s, "sw") || contains_lower(s, "lw") || contains_lower(s, "walzer") {
        named.push(Dance::SlowWaltz);
    }
    proof {
        assert(spec_dance_named(s@, canonical_dance(0)) == spec_dance_named(s@, Dance::SlowWaltz));
        assert(named@ =~= spec_named_upto(s@, 1));
    }
    if contains_lower(s, "tg") || contains_lower(s, "tango") {
        named.push(Dance::Tango);
    }
    proof {
        assert(spec_dance_named(s@, canonical_dance(1)) == spec_dance_named(s@, Dance::Tango));
        assert(named@ =~= spec_named_upto(s@, 2));
    }
    if contains_lower(s, "vw") || contains_lower(s, "wiener") || contains_lower(s, "ww") {
        named.push(Dance::VienneseWaltz);
    }
    proof {
        assert(spec_dance_named(s@, canonical_dance(2)) == spec_dance_named(s@, Dance::VienneseWaltz));
        assert(named@ =~= spec_named_upto(s@, 3));
    }
    if (contains_lower(s, "sf") && !contains_lower(s, "wdsf")) || contains_lower(s, "slow") || contains_lower(s, "fox") {
        named.push(Dance::SlowFoxtrot);
    }
    proof {
        assert(spec_dance_named(s@, canonical_dance(3)) == spec_dance_named(s@, Dance::SlowFoxtrot));
        assert(named@ =~= spec_named_upto(s@, 4));
    }
    if contains_lower(s, "qs") || contains_lower(s, "qu") || contains_lower(s, "quick") {
        named.push(Dance::Quickstep);
    }
    proof {
        assert(spec_dance_named(s@, canonical_dance(4)) == spec_dance_named(s@, Dance::Quickstep));
        assert(named@ =~= spec_named_upto(s@, 5));
    }
    if contains_lower(s, "sb") || contains_lower(s, "sa") || contains_lower(s, "samba") {
        named.push(Dance::Samba);
    }
    proof {
        assert(spec_dance_named(s@, canonical_dance(5)) == spec_dance_named(s@, Dance::Samba));
        assert(named@ =~= spec_named_upto(s@, 6));
    }
    if contains_lower(s, "cc") || contains_lower(s, "cha") {
        named.push(Dance::ChaChaCha);
    }
    proof {
        assert(spec_dance_named(s@, canonical_dance(6)) == spec_dance_named(s@, Dance::ChaChaCha));
        assert(named@ =~= spec_named_upto(s@, 7));
    }
    if contains_lower(s, "rb") || contains_lower(s, "ru") || contains_lower(s, "rumba") {
        named.push(Dance::Rumba);
    }
    proof {
        assert(spec_dance_named(s@, canonical_dance(7)) == spec_dance_named(s@, Dance::Rumba));
        assert(named@ =~= spec_named_upto(s@, 8));
    }
    if contains_lower(s, "pd") || contains_lower(s, "paso") {
        named.push(Dance::PasoDoble);
    }
    proof {
        assert(spec_dance_named(s@, canonical_dance(8)) == spec_dance_named(s@, Dance::PasoDoble));
        assert(named@ =~= spec_named_upto(s@, 9));
    }
    if contains_lower(s, "jv") || contains_lower(s, "ji") || contains_lower(s, "jive") {
        named.push(Dance::Jive);
    }
    proof {
        assert(spec_dance_named(s@, canonical_dance(9)) == spec_dance_named(s@, Dance::Jive));
        assert(named@ =~= spec_named_upto(s@, 10));
    }
    named
}

/// Parses the dances a label names, case-insensitively, in canonical
/// order; a label naming no single dance but a style yields the
/// style's full dance set.
pub fn parse_dances(s: &str) -> (r: Vec<Dance>)
    ensures
        r@ == spec_parse_dances(s@),
{
    let named = named_dances(s);
    if named.len() > 0 {
        return named;
    }
    if contains_lower(s, "standard") {
        let mut v: Vec<Dance> = Vec::new();
        v.push(Dance::SlowWaltz);
        v.push(Dance::Tango);
        v.push(Dance::VienneseWaltz);
        v.push(Dance::SlowFoxtrot);
        v.push(Dance::Quickstep);
        proof {
            assert(v@ =~= spec_standard_dances());
        }
        return v;
    }
    if contains_lower(s, "latein") || contains_lower(s, "latin") {
        let mut v: Vec<Dance> = Vec::new();
        v.push(Dance::Samba);
        v.push(Dance::ChaChaCha);
        v.push(Dance::Rumba);
        v.push(Dance::PasoDoble);
        v.push(Dance::Jive);
        proof {
            assert(v@ =~= spec_latin_dances());
        }
        return v;
    }
    named
}

/// The dance at position `i` of the canonical order.
pub open spec fn canonical_dance(i: int) -> Dance {
    if i == 0 {
        Dance::SlowWaltz
    } else if i == 1 {
        Dance::Tango
    } else if i == 2 {
        Dance::VienneseWaltz
    } else if i == 3 {
        Dance::SlowFoxtrot
    } else if i == 4 {
        Dance::Quickstep
    } else if i == 5 {
        Dance::Samba
    } else if i == 6 {
        Dance::ChaChaCha
    } else if i == 7 {
        Dance::Rumba
    } else if i == 8 {
        Dance::PasoDoble
    } else {
        Dance::Jive
    }
}

/// The dances among the first `k` of the canonical order that the
/// label names individually.
pub open spec fn spec_named_upto(s: Seq<char>, k: int) -> Seq<Dance>
    decreases k,
{
    if k <= 0 {
        Seq::empty()
    } else {
        spec_named_upto(s, k - 1) + (if spec_dance_named(s, canonical_dance(k - 1)) {
            seq![canonical_dance(k - 1)]
        } else {
            Seq::empty()
        })
    }
}

/// The dances a label names individually, in canonical order.
pub open spec fn spec_named_dances(s: Seq<char>) -> Seq<Dance> {
    spec_named_upto(s, 10)
}

/// The source-document labels of the age groups, in table order.
pub fn age_group_keys() -> (v: Vec<&'static str>)
    ensures
        v@.len() == 37,
        v@[0]@ == "Hgr"@,
        v@[36]@ == "Jug."@,
{
    let mut v: Vec<&'static str> = Vec::new();
    v.push("Hgr");
    v.push("Hgr.");
    v.push("Hauptgruppe");
    v.push("Adult");
    v.push("Adults");
    v.push("Rising Stars");
    v.push("Hgr.II");
    v.push("Hgr II");
    v.push("Hauptgruppe II");
    v.push("Sen");
    v.push("Sen.");
    v.push("Mas.");
    v.push("Sen.I");
    v.push("Mas.I");
    v.push("Senioren I");
    v.push("Sen.II");
    v.push("Mas.II");
    v.push("Senioren II");
    v.push("Sen.III");
    v.push("Mas.III");
    v.push("Senioren III");
    v.push("Sen.IV");
    v.push("Mas.IV");
    v.push("Senioren IV");
    v.push("Sen.V");
    v.push("Mas.V");
    v.push("Senioren V");
    v.push("Kinder I");
    v.push("Kin.I");
    v.push("Kinder II");
    v.push("Kin.II");
    v.push("Junioren I");
    v.push("Jun.I");
    v.push("Junioren II");
    v.push("Jun.II");
    v.push("Jugend");
    v.push("Jug.");
    v
}

/// The source-document labels of the styles, in table order.
pub fn style_keys() -> (v: Vec<&'static str>)
    ensures
        v@.len() == 3,
        v@[0]@ == "Standard"@,
        v@[1]@ == "Latein"@,
        v@[2]@ == "Latin"@,
{
    let mut v: Vec<&'static str> = Vec::new();
    v.push("Standard");
    v.push("Latein");
    v.push("Latin");
    v
}

} // verus!

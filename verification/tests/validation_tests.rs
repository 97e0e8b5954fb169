use dancing_datacollection::models::{
    AgeGroup, Competition, Dance, Date, Event, IdentityType, Judge, Level, MarkingCell,
    Officials, Participant, PlacementCell, Round, RoundData, ScoreCell, Style, WDSFScore,
};
use dancing_datacollection::validation::{
    validate_event_fidelity, verify_competition, RejectionReason, Verdict,
};

fn create_mock_judge(code: &str) -> Judge {
    Judge {
        code: code.to_string(),
        name: format!("Judge {}", code),
        club: None,
    }
}

fn dtv_cells(entries: Vec<(&str, u32, Dance, u32)>) -> Vec<PlacementCell> {
    entries
        .into_iter()
        .map(|(judge, bib, dance, placement)| PlacementCell {
            judge: judge.to_string(),
            bib,
            dance,
            placement,
        })
        .collect()
}

fn marking_cells(entries: Vec<(&str, u32, Dance, bool)>) -> Vec<MarkingCell> {
    entries
        .into_iter()
        .map(|(judge, bib, dance, qualified)| MarkingCell {
            judge: judge.to_string(),
            bib,
            dance,
            qualified,
        })
        .collect()
}

fn full_dtv_round(name: &str, bibs: &[(u32, u32, u32)]) -> Round {
    // One placement cell per judge, entrant and dance; each entrant
    // carries its slow waltz and tango placements.
    let mut cells = Vec::new();
    for j in ["A", "B", "C"] {
        for &(bib, sw, tg) in bibs {
            cells.push(PlacementCell {
                judge: j.to_string(),
                bib,
                dance: Dance::SlowWaltz,
                placement: sw,
            });
            cells.push(PlacementCell {
                judge: j.to_string(),
                bib,
                dance: Dance::Tango,
                placement: tg,
            });
        }
    }
    Round {
        name: name.to_string(),
        data: RoundData::Dtv(cells),
    }
}

fn full_marking_round(name: &str, bibs: &[u32]) -> Round {
    let mut cells = Vec::new();
    for j in ["A", "B", "C"] {
        for &bib in bibs {
            cells.push(MarkingCell {
                judge: j.to_string(),
                bib,
                dance: Dance::SlowWaltz,
                qualified: true,
            });
            cells.push(MarkingCell {
                judge: j.to_string(),
                bib,
                dance: Dance::Tango,
                qualified: true,
            });
        }
    }
    Round {
        name: name.to_string(),
        data: RoundData::Marking(cells),
    }
}

fn create_mock_competition() -> Competition {
    Competition {
        level: Level::D,
        age_group: AgeGroup::Adult,
        style: Style::Standard,
        dances: vec![Dance::SlowWaltz, Dance::Tango],
        min_dances: 2,
        officials: Officials {
            responsible_person: None,
            assistant: None,
            judges: vec![
                create_mock_judge("A"),
                create_mock_judge("B"),
                create_mock_judge("C"),
            ],
        },
        participants: vec![Participant {
            identity_type: IdentityType::Solo,
            name_one: "P1".to_string(),
            name_two: None,
            affiliation: None,
            bib_number: 101,
            final_rank: None,
        }],
        rounds: vec![full_dtv_round("Final", &[(101, 1, 1)])],
    }
}

fn event_of(comp: Competition) -> Event {
    Event {
        name: "Test Event".to_string(),
        date: None,
        organizer: None,
        hosting_club: None,
        competitions_list: vec![comp],
    }
}

#[test]
fn test_valid_event() {
    let event = event_of(create_mock_competition());
    assert!(validate_event_fidelity(&event));
}

#[test]
fn test_insufficient_judges() {
    let mut comp = create_mock_competition();
    comp.officials.judges.pop(); // Down to 2
    let event = event_of(comp);
    assert!(!validate_event_fidelity(&event));
}

#[test]
fn test_missing_judge_in_round() {
    let mut comp = create_mock_competition();
    if let RoundData::Dtv(ref mut cells) = comp.rounds[0].data {
        cells.retain(|c| c.judge != "C");
    }
    let event = event_of(comp);
    assert!(!validate_event_fidelity(&event));
}

#[test]
fn test_missing_participant_for_judge() {
    let mut comp = create_mock_competition();
    // Judge A also reports entrant 102; B and C do not.
    if let RoundData::Dtv(ref mut cells) = comp.rounds[0].data {
        cells.extend(dtv_cells(vec![
            ("A", 102, Dance::SlowWaltz, 1),
            ("A", 102, Dance::Tango, 1),
        ]));
    }
    let event = event_of(comp);
    assert!(!validate_event_fidelity(&event));
}

#[test]
fn test_missing_dance_for_participant() {
    let mut comp = create_mock_competition();
    if let RoundData::Dtv(ref mut cells) = comp.rounds[0].data {
        cells.retain(|c| !(c.judge == "A" && c.bib == 101 && c.dance == Dance::Tango));
    }
    let event = event_of(comp);
    assert!(!validate_event_fidelity(&event));
}

#[test]
fn test_wdsf_scores_completeness() {
    let mut comp = create_mock_competition();
    let mut cells = Vec::new();
    for j in ["A", "B", "C"] {
        cells.push(ScoreCell {
            judge: j.to_string(),
            bib: 101,
            score: WDSFScore {
                technical_quality: 10000,
                movement_to_music: 10000,
                partnering_skills: 10000,
                choreography: 10000,
                total: 10000,
            },
        });
    }
    comp.rounds[0].data = RoundData::Wdsf(cells);

    let event = event_of(comp.clone());
    assert!(validate_event_fidelity(&event));

    // Corrupt it: judge A's record for 101 disappears.
    let mut corrupt_comp = comp.clone();
    if let RoundData::Wdsf(ref mut cells) = corrupt_comp.rounds[0].data {
        cells.retain(|c| c.judge != "A");
    }
    let corrupt_event = event_of(corrupt_comp);
    assert!(!validate_event_fidelity(&corrupt_event));
}

#[test]
fn test_dtv_ranks_completeness() {
    let comp = {
        let mut c = create_mock_competition();
        c.rounds[0] = full_dtv_round("Final", &[(101, 1, 2)]);
        c
    };
    let event = event_of(comp.clone());
    assert!(validate_event_fidelity(&event));

    // Corrupt it - missing dance
    let mut corrupt_comp = comp.clone();
    if let RoundData::Dtv(ref mut cells) = corrupt_comp.rounds[0].data {
        cells.retain(|c| !(c.judge == "A" && c.bib == 101 && c.dance == Dance::Tango));
    }
    let corrupt_event = event_of(corrupt_comp);
    assert!(!validate_event_fidelity(&corrupt_event));
}

#[test]
fn test_teleporting_couple() {
    let mut comp = create_mock_competition();
    // Only 101 is in the Vorrunde; 102 appears out of nowhere in the
    // Final.
    comp.rounds = vec![
        full_marking_round("Vorrunde", &[101]),
        full_dtv_round("Final", &[(101, 1, 1), (102, 1, 1)]),
    ];
    let event = event_of(comp);
    // Fails because 102 is in Final but not in Round 0
    assert!(!validate_event_fidelity(&event));
}

#[test]
fn test_skipping_round() {
    let mut comp = create_mock_competition();
    // 101 and 102 in Vorrunde, only 102 in Semi, only 101 in the
    // Final: 101 skipped a round.
    comp.rounds = vec![
        full_marking_round("Vorrunde", &[101, 102]),
        full_marking_round("Semi", &[102]),
        full_dtv_round("Final", &[(101, 1, 1)]),
    ];
    let event = event_of(comp);
    assert!(!validate_event_fidelity(&event));
}

#[test]
fn test_inconsistent_rank() {
    let mut comp = create_mock_competition();
    // Participant 101 has final_rank 1
    comp.participants[0].final_rank = Some(1);
    // The final round carries entrant 102 instead of 101.
    comp.rounds = vec![full_dtv_round("Final", &[(102, 1, 1)])];
    let event = event_of(comp);
    assert!(!validate_event_fidelity(&event));
}

#[test]
fn test_missing_final_anchor() {
    let mut comp = create_mock_competition();
    // Final round has only crosses, no ranks/scores
    comp.rounds = vec![full_marking_round("Final", &[101])];
    let event = event_of(comp);
    assert!(!validate_event_fidelity(&event));
}

fn rejection_reasons(comp: &Competition) -> Vec<RejectionReason> {
    match verify_competition(comp) {
        Verdict::Accepted => Vec::new(),
        Verdict::Rejected(reasons) => {
            assert!(!reasons.is_empty());
            reasons
        }
    }
}

#[test]
fn test_empty_participants_rejected() {
    let mut comp = create_mock_competition();
    comp.participants.clear();
    let reasons = rejection_reasons(&comp);
    assert!(reasons
        .iter()
        .any(|r| matches!(r, RejectionReason::EmptyParticipants)));
}

#[test]
fn test_empty_rounds_rejected() {
    let mut comp = create_mock_competition();
    comp.rounds.clear();
    let reasons = rejection_reasons(&comp);
    assert!(reasons
        .iter()
        .any(|r| matches!(r, RejectionReason::EmptyRounds)));
}

#[test]
fn test_below_minimum_dances_rejected() {
    let mut comp = create_mock_competition();
    comp.min_dances = 3; // but only two dances are contested
    let reasons = rejection_reasons(&comp);
    assert!(reasons
        .iter()
        .any(|r| matches!(r, RejectionReason::BelowMinimumDances)));
}

#[test]
fn test_incomplete_round_reason() {
    // Deleting a single (judge, bib, dance) cell from an otherwise
    // complete round must reject with IncompleteRound.
    let mut comp = create_mock_competition();
    if let RoundData::Dtv(ref mut cells) = comp.rounds[0].data {
        cells.retain(|c| !(c.judge == "B" && c.bib == 101 && c.dance == Dance::SlowWaltz));
    }
    let reasons = rejection_reasons(&comp);
    assert!(reasons
        .iter()
        .any(|r| matches!(r, RejectionReason::IncompleteRound { round: 0 })));
}

#[test]
fn test_teleported_reason_in_redance() {
    // A bib absent from round 0 is rejected even when it surfaces in
    // a redance round.
    let mut comp = create_mock_competition();
    comp.rounds = vec![
        full_marking_round("Vorrunde", &[101]),
        full_marking_round("Redance", &[101, 102]),
        full_dtv_round("Final", &[(101, 1, 1)]),
    ];
    let reasons = rejection_reasons(&comp);
    assert!(reasons
        .iter()
        .any(|r| matches!(r, RejectionReason::ParticipantTeleported { bib: 102 })));
}

#[test]
fn test_score_math_mismatch_reason() {
    let mut comp = create_mock_competition();
    let mut cells = Vec::new();
    for j in ["A", "B", "C"] {
        cells.push(ScoreCell {
            judge: j.to_string(),
            bib: 101,
            score: WDSFScore {
                technical_quality: 8500,
                movement_to_music: 8000,
                partnering_skills: 8500,
                choreography: 9000,
                total: if j == "A" { 9500 } else { 8500 },
            },
        });
    }
    comp.rounds[0].data = RoundData::Wdsf(cells);
    let reasons = rejection_reasons(&comp);
    assert!(reasons
        .iter()
        .any(|r| matches!(r, RejectionReason::ScoreMathMismatch { round: 0, bib: 101, .. })));
}

#[test]
fn test_scrutineering_agreement() {
    // Every judge places 101 ahead of 102 on every dance.  Declared
    // ranks 1 and 2 must be accepted.
    let mut comp = create_mock_competition();
    comp.participants = vec![
        Participant {
            identity_type: IdentityType::Solo,
            name_one: "P1".to_string(),
            name_two: None,
            affiliation: None,
            bib_number: 101,
            final_rank: Some(1),
        },
        Participant {
            identity_type: IdentityType::Solo,
            name_one: "P2".to_string(),
            name_two: None,
            affiliation: None,
            bib_number: 102,
            final_rank: Some(2),
        },
    ];
    comp.rounds = vec![full_dtv_round("Final", &[(101, 1, 1), (102, 2, 2)])];
    assert!(matches!(verify_competition(&comp), Verdict::Accepted));

    // Declaring them the other way round must be rejected with a
    // scrutineering mismatch.
    let mut wrong = comp.clone();
    wrong.participants[0].final_rank = Some(2);
    wrong.participants[1].final_rank = Some(1);
    let reasons = rejection_reasons(&wrong);
    assert!(reasons
        .iter()
        .any(|r| matches!(r, RejectionReason::ScrutineeringMismatch { bib: 101, expected: 2, recomputed: 1 })));
}

#[test]
fn test_end_to_end_accepts_recomputed_ranks() {
    // 3 judges, 2 bibs, one DTV round, 101 first on both dances.
    let mut comp = create_mock_competition();
    comp.participants = vec![
        Participant {
            identity_type: IdentityType::Solo,
            name_one: "P1".to_string(),
            name_two: None,
            affiliation: None,
            bib_number: 101,
            final_rank: Some(1),
        },
        Participant {
            identity_type: IdentityType::Solo,
            name_one: "P2".to_string(),
            name_two: None,
            affiliation: None,
            bib_number: 102,
            final_rank: Some(2),
        },
    ];
    comp.rounds = vec![full_dtv_round("Final", &[(101, 1, 1), (102, 2, 2)])];
    assert!(validate_event_fidelity(&event_of(comp.clone())));

    // The recomputed ranks really are {101: 1, 102: 2}.
    let bibs = vec![101, 102];
    let dance_ranks = vec![vec![1, 2], vec![1, 2]];
    let marks = Some(vec![
        vec![vec![1, 2], vec![1, 2], vec![1, 2]],
        vec![vec![1, 2], vec![1, 2], vec![1, 2]],
    ]);
    let overall =
        dancing_datacollection::skating::calculate_final_ranks(&bibs, &dance_ranks, &marks);
    assert_eq!(overall, vec![(101, 1), (102, 2)]);
}

#[test]
fn test_empty_event_invalid() {
    let event = Event {
        name: "Test Event".to_string(),
        date: None,
        organizer: None,
        hosting_club: None,
        competitions_list: Vec::new(),
    };
    assert!(!validate_event_fidelity(&event));
}

#[test]
fn test_marking_cells_builder_used() {
    // A redance round may shrink or keep the field, but never add to
    // it; keeping the field is fine.
    let mut comp = create_mock_competition();
    comp.rounds = vec![
        Round {
            name: "Vorrunde".to_string(),
            data: RoundData::Marking(marking_cells(
                ["A", "B", "C"]
                    .iter()
                    .flat_map(|j| {
                        vec![
                            (*j, 101, Dance::SlowWaltz, true),
                            (*j, 101, Dance::Tango, true),
                            (*j, 102, Dance::SlowWaltz, true),
                            (*j, 102, Dance::Tango, true),
                        ]
                    })
                    .collect(),
            )),
        },
        full_marking_round("Hoffnungslauf", &[101, 102]),
        full_dtv_round("Endrunde", &[(101, 1, 1), (102, 2, 2)]),
    ];
    assert!(matches!(verify_competition(&comp), Verdict::Accepted));
}

#[test]
fn test_progression_violation_reason() {
    let mut comp = create_mock_competition();
    comp.rounds = vec![
        full_marking_round("Vorrunde", &[101, 102]),
        full_marking_round("Semi", &[102]),
        full_dtv_round("Final", &[(101, 1, 1)]),
    ];
    let reasons = rejection_reasons(&comp);
    assert!(reasons
        .iter()
        .any(|r| matches!(r, RejectionReason::ProgressionViolation { round: 2 })));
}

#[test]
fn test_rank_inconsistent_reason() {
    let mut comp = create_mock_competition();
    comp.participants[0].final_rank = Some(1);
    comp.rounds = vec![full_dtv_round("Final", &[(102, 1, 1)])];
    let reasons = rejection_reasons(&comp);
    assert!(reasons
        .iter()
        .any(|r| matches!(r, RejectionReason::RankInconsistentWithFinalRank { bib: 101 })));
}

#[test]
fn test_insufficient_officials_reason() {
    let mut comp = create_mock_competition();
    comp.officials.judges.truncate(2);
    let reasons = rejection_reasons(&comp);
    assert!(reasons
        .iter()
        .any(|r| matches!(r, RejectionReason::InsufficientOfficials)));
}

#[test]
fn test_missing_final_anchor_reason() {
    let mut comp = create_mock_competition();
    comp.rounds = vec![full_marking_round("Final", &[101])];
    let reasons = rejection_reasons(&comp);
    assert!(reasons
        .iter()
        .any(|r| matches!(r, RejectionReason::MissingFinalAnchor)));
}

use wows_toolkit::interactions::{link_received_damage, DamageInteraction, PlayerInteractions};

fn dealt(other_player: i64, damage_dealt: u64) -> DamageInteraction {
    DamageInteraction { other_player, damage_dealt, damage_received: 0 }
}

#[test]
fn received_damage_is_what_the_other_player_dealt() {
    let reports = vec![
        PlayerInteractions { db_id: 1, interactions: Some(vec![dealt(2, 100), dealt(3, 50)]) },
        PlayerInteractions { db_id: 2, interactions: Some(vec![dealt(1, 30)]) },
        PlayerInteractions { db_id: 3, interactions: None },
    ];
    let linked = link_received_damage(reports);
    assert_eq!(linked.len(), 3);
    assert_eq!(linked[0].db_id, 1);
    assert_eq!(
        linked[0].interactions,
        Some(vec![
            DamageInteraction { other_player: 2, damage_dealt: 100, damage_received: 30 },
            DamageInteraction { other_player: 3, damage_dealt: 50, damage_received: 0 },
        ])
    );
    assert_eq!(
        linked[1].interactions,
        Some(vec![DamageInteraction { other_player: 1, damage_dealt: 30, damage_received: 100 }])
    );
    assert_eq!(linked[2].interactions, None);
}

#[test]
fn a_player_not_listed_back_gives_no_received_damage() {
    let reports = vec![
        PlayerInteractions { db_id: 7, interactions: Some(vec![dealt(8, 400)]) },
        PlayerInteractions { db_id: 8, interactions: Some(vec![dealt(9, 20)]) },
    ];
    let linked = link_received_damage(reports);
    assert_eq!(linked[0].interactions, Some(vec![dealt(8, 400)]));
    assert_eq!(linked[1].interactions, Some(vec![dealt(9, 20)]));
}

#[test]
fn a_second_report_of_one_player_gathers_for_the_first() {
    let reports = vec![
        PlayerInteractions { db_id: 5, interactions: Some(vec![dealt(6, 10)]) },
        PlayerInteractions { db_id: 6, interactions: Some(vec![dealt(5, 70)]) },
        PlayerInteractions { db_id: 5, interactions: Some(vec![dealt(6, 11)]) },
    ];
    let linked = link_received_damage(reports);
    assert_eq!(
        linked[0].interactions,
        Some(vec![DamageInteraction { other_player: 6, damage_dealt: 10, damage_received: 70 }])
    );
    assert_eq!(
        linked[1].interactions,
        Some(vec![DamageInteraction { other_player: 5, damage_dealt: 70, damage_received: 10 }])
    );
    assert_eq!(linked[2].interactions, Some(vec![dealt(6, 11)]));
}

use engine::card::{forest, grizzly_bears};
use engine::listing::{battlefield_groups, count_by_name};

#[test]
fn cards_are_counted_by_name() {
    let cards = vec![forest(), grizzly_bears(), forest(), forest()];
    let groups = count_by_name(&cards);
    assert_eq!(groups.len(), 2);
    assert_eq!(groups[0].name, "Forest");
    assert_eq!(groups[0].count, 3);
    assert_eq!(groups[1].name, "Grizzly Bears");
    assert_eq!(groups[1].count, 1);
    assert!(count_by_name(&Vec::new()).is_empty());
}

#[test]
fn battlefield_groups_split_sick_creatures() {
    let mut sick = grizzly_bears();
    sick.set_summoning_sickness(true);
    let mut sick_land = forest();
    sick_land.set_summoning_sickness(true);
    let cards = vec![grizzly_bears(), sick, forest(), grizzly_bears(), sick_land];
    let groups = battlefield_groups(&cards);
    assert_eq!(groups.len(), 3);

    assert_eq!(groups[0].name, "Grizzly Bears");
    assert!(groups[0].creature && !groups[0].sick);
    assert_eq!((groups[0].power, groups[0].toughness, groups[0].count), (2, 2, 2));

    assert_eq!(groups[1].name, "Grizzly Bears");
    assert!(groups[1].sick);
    assert_eq!(groups[1].count, 1);

    // The sickness flag does not split lands.
    assert_eq!(groups[2].name, "Forest");
    assert!(!groups[2].creature);
    assert_eq!((groups[2].power, groups[2].toughness, groups[2].count), (0, 0, 2));
}

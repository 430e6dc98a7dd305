use stove::name::{find_text, intern, read_text, text_is};
use stove::package::{reads_same, same_object};
use stove::subtree::{collect_subtree, find_place, is_owned, place};
use stove::{give_unique_name, Export, Import, Name, Package, Property, Reference, Target};

fn texts(list: &[&str]) -> Vec<String> {
    list.iter().map(|s| s.to_string()).collect()
}

fn named(index: usize) -> Name {
    Name { index, number: 0 }
}

fn owned_by(outer: i32) -> Export {
    Export {
        object_name: named(0),
        outer: Reference::new(outer),
        class: Reference::null(),
        template: Reference::null(),
        before_construction: vec![],
        before_serialization: vec![],
        properties: None,
        contained: None,
    }
}

#[test]
fn reference_reads_its_sign() {
    assert_eq!(Reference::new(0).target(), Target::Null);
    assert_eq!(Reference::new(1).target(), Target::Export(0));
    assert_eq!(Reference::new(7).target(), Target::Export(6));
    assert_eq!(Reference::new(-1).target(), Target::Import(0));
    assert_eq!(Reference::new(-7).target(), Target::Import(6));
    assert_eq!(Reference::new(i32::MAX).target(), Target::Export(2147483646));
    assert_eq!(Reference::new(i32::MIN).target(), Target::Import(2147483647));
    assert_eq!(Reference::null(), Reference::new(0));
    assert!(Reference::null().is_null());
    assert!(!Reference::null().is_export());
    assert!(!Reference::null().is_import());
    assert!(Reference::new(3).is_export());
    assert!(!Reference::new(3).is_import());
    assert!(Reference::new(-3).is_import());
    assert!(!Reference::new(-3).is_null());
}

#[test]
fn reference_is_made_from_a_position() {
    assert_eq!(Reference::export(0), Some(Reference::new(1)));
    assert_eq!(Reference::export(41), Some(Reference::new(42)));
    assert_eq!(Reference::export(2147483646), Some(Reference::new(i32::MAX)));
    assert_eq!(Reference::export(2147483647), None);
    assert_eq!(Reference::import(0), Some(Reference::new(-1)));
    assert_eq!(Reference::import(41), Some(Reference::new(-42)));
    assert_eq!(Reference::import(2147483647), Some(Reference::new(i32::MIN)));
    assert_eq!(Reference::import(2147483648), None);
    assert_eq!(Reference::export(5).unwrap().target(), Target::Export(5));
    assert_eq!(Reference::import(5).unwrap().target(), Target::Import(5));
}

#[test]
fn reference_resolves_within_the_tables() {
    assert!(Reference::new(0).resolves_in(0, 0));
    assert!(Reference::new(2).resolves_in(2, 0));
    assert!(!Reference::new(3).resolves_in(2, 9));
    assert!(Reference::new(-2).resolves_in(0, 2));
    assert!(!Reference::new(-3).resolves_in(9, 2));
    assert!(stove::export::all_resolve(&vec![Reference::new(1), Reference::new(-1)], 1, 1));
    assert!(!stove::export::all_resolve(&vec![Reference::new(1), Reference::new(-2)], 1, 1));
    assert!(stove::export::all_resolve(&vec![], 0, 0));
}

#[test]
fn strings_are_found_read_and_interned() {
    let mut names = texts(&["a", "b", "a"]);
    assert_eq!(find_text(&names, &"a".to_string()), Some(0));
    assert_eq!(find_text(&names, &"b".to_string()), Some(1));
    assert_eq!(find_text(&names, &"c".to_string()), None);
    assert_eq!(read_text(&names, 1), "b");
    assert_eq!(read_text(&names, 3), "");
    assert!(text_is(&names, 2, &"a".to_string()));
    assert!(!text_is(&names, 2, &"b".to_string()));
    assert!(text_is(&names, 9, &String::new()));
    assert!(!text_is(&names, 9, &"a".to_string()));
    assert_eq!(intern(&mut names, "b".to_string()), 1);
    assert_eq!(names, texts(&["a", "b", "a"]));
    assert_eq!(intern(&mut names, "c".to_string()), 3);
    assert_eq!(names, texts(&["a", "b", "a", "c"]));
    assert_eq!(intern(&mut names, "c".to_string()), 3);
    assert_eq!(names.len(), 4);
}

#[test]
fn free_name_is_given_as_it_is() {
    let names = texts(&["Level", "Cube1"]);
    assert_eq!(give_unique_name(&names, &"Cube".to_string()), "Cube");
    assert_eq!(give_unique_name(&names, &"Cube2".to_string()), "Cube2");
    assert_eq!(give_unique_name(&Vec::new(), &"".to_string()), "");
}

#[test]
fn taken_name_without_a_number_starts_at_one() {
    assert_eq!(give_unique_name(&texts(&["Cube"]), &"Cube".to_string()), "Cube1");
    assert_eq!(give_unique_name(&texts(&["Cube", "Cube1"]), &"Cube".to_string()), "Cube2");
    assert_eq!(
        give_unique_name(&texts(&["Cube3", "Cube", "Cube2", "Cube1"]), &"Cube".to_string()),
        "Cube4"
    );
    assert_eq!(give_unique_name(&texts(&[""]), &"".to_string()), "1");
}

#[test]
fn taken_name_with_a_number_counts_on_from_it() {
    assert_eq!(give_unique_name(&texts(&["Cube7"]), &"Cube7".to_string()), "Cube8");
    assert_eq!(give_unique_name(&texts(&["Cube9", "Cube10"]), &"Cube9".to_string()), "Cube11");
    assert_eq!(give_unique_name(&texts(&["Cube99"]), &"Cube99".to_string()), "Cube100");
    assert_eq!(give_unique_name(&texts(&["Cube0"]), &"Cube0".to_string()), "Cube1");
    // only the digits at the end count
    assert_eq!(give_unique_name(&texts(&["Cu8be"]), &"Cu8be".to_string()), "Cu8be1");
    assert_eq!(give_unique_name(&texts(&["4"]), &"4".to_string()), "5");
}

#[test]
fn zeros_in_front_of_the_number_are_dropped() {
    assert_eq!(give_unique_name(&texts(&["Cube007"]), &"Cube007".to_string()), "Cube7");
    assert_eq!(give_unique_name(&texts(&["Cube007", "Cube7"]), &"Cube007".to_string()), "Cube8");
}

#[test]
fn a_number_too_large_to_count_from_starts_at_zero() {
    let huge = "Cube99999999999999999999".to_string();
    assert_eq!(give_unique_name(&vec![huge.clone()], &huge), "Cube0");
    // the largest number that can be counted from
    let last = "Cube18446744073709551615".to_string();
    assert_eq!(give_unique_name(&vec![last.clone()], &last), "Cube18446744073709551616");
    let beyond = "Cube18446744073709551616".to_string();
    assert_eq!(give_unique_name(&vec![beyond.clone()], &beyond), "Cube0");
}

#[test]
fn names_other_than_digits_are_kept_whole() {
    assert_eq!(give_unique_name(&texts(&["Würfel"]), &"Würfel".to_string()), "Würfel1");
    assert_eq!(give_unique_name(&texts(&["立方体3"]), &"立方体3".to_string()), "立方体4");
    // a digit of another script is no decimal digit
    assert_eq!(give_unique_name(&texts(&["Cube٣"]), &"Cube٣".to_string()), "Cube٣1");
}

#[test]
fn names_are_compared_by_what_they_read() {
    let here = texts(&["Foo", "Bar"]);
    let there = texts(&["Bar", "Baz", "Foo"]);
    assert!(reads_same(&here, named(0), &there, named(2)));
    assert!(reads_same(&here, named(1), &there, named(0)));
    assert!(!reads_same(&here, named(0), &there, named(0)));
    assert!(!reads_same(&here, Name { index: 0, number: 1 }, &there, Name { index: 2, number: 0 }));
    assert!(reads_same(&here, Name { index: 0, number: 1 }, &there, Name { index: 2, number: 1 }));
    // beyond the table a name reads as nothing
    assert!(reads_same(&here, named(5), &there, named(9)));
    assert!(!reads_same(&here, named(5), &there, named(0)));
    assert!(!reads_same(&here, named(0), &there, named(9)));
    assert!(reads_same(&texts(&[""]), named(0), &there, named(9)));
    assert!(reads_same(&here, named(9), &texts(&[""]), named(0)));
}

fn import_of(class_package: usize, class_name: usize, object_name: usize) -> Import {
    Import {
        class_package: named(class_package),
        class_name: named(class_name),
        object_name: named(object_name),
        outer: Reference::null(),
    }
}

#[test]
fn imports_are_looked_up_by_what_they_read() {
    let package = Package {
        exports: vec![owned_by(0)],
        imports: vec![
            import_of(0, 1, 2),
            Import { outer: Reference::new(-1), ..import_of(0, 1, 3) },
            import_of(0, 1, 3),
        ],
        names: texts(&["/Script/Engine", "Class", "Actor", "Light"]),
    };
    let other = texts(&["Light", "Class", "/Script/Engine", "Actor"]);
    assert!(same_object(&package.names, &package.imports[1], &other, &import_of(2, 1, 0)));
    assert!(!same_object(&package.names, &package.imports[0], &other, &import_of(2, 1, 0)));
    // the owner plays no part, and the first of two equal imports is found
    assert_eq!(package.find_import_by_content(&other, &import_of(2, 1, 0)), Some(1));
    assert_eq!(package.find_import_by_content(&other, &import_of(2, 1, 3)), Some(0));
    assert_eq!(package.find_import_by_content(&other, &import_of(1, 2, 3)), None);
    assert_eq!(package.find_import_by_content(&other, &import_of(2, 0, 3)), None);
    assert_eq!(package.find_import_by_content(&other, &import_of(2, 1, 1)), None);
    assert_eq!(Package::new().find_import_by_content(&other, &import_of(2, 1, 0)), None);
}

#[test]
fn objects_are_reached_through_references() {
    let package = Package {
        exports: vec![owned_by(0), owned_by(1)],
        imports: vec![import_of(0, 0, 0)],
        names: texts(&["x"]),
    };
    assert_eq!(package.get_import(Reference::new(-1)), Some(&import_of(0, 0, 0)));
    assert_eq!(package.get_import(Reference::new(-2)), None);
    assert_eq!(package.get_import(Reference::new(0)), None);
    assert_eq!(package.get_import(Reference::new(1)), None);
    assert_eq!(package.get_import(Reference::new(i32::MIN)), None);
    assert_eq!(package.get_export(Reference::new(2)), Some(&owned_by(1)));
    assert_eq!(package.get_export(Reference::new(1)), Some(&owned_by(0)));
    assert_eq!(package.get_export(Reference::new(3)), None);
    assert_eq!(package.get_export(Reference::new(0)), None);
    assert_eq!(package.get_export(Reference::new(-1)), None);
    assert_eq!(package.get_export(Reference::new(i32::MAX)), None);
}

#[test]
fn the_first_container_is_the_container() {
    let mut package = Package {
        exports: vec![owned_by(0), owned_by(0), owned_by(0)],
        imports: vec![],
        names: texts(&["x"]),
    };
    assert_eq!(package.container(), None);
    package.exports[2].contained = Some(vec![]);
    assert_eq!(package.container(), Some(2));
    package.exports[1].contained = Some(vec![Reference::new(1)]);
    assert_eq!(package.container(), Some(1));
    assert_eq!(Package::new().container(), None);
}

#[test]
fn package_is_valid_where_everything_resolves() {
    let mut package = Package {
        exports: vec![
            Export {
                class: Reference::new(-1),
                before_serialization: vec![Reference::new(2)],
                properties: Some(vec![Property::Object { name: named(0), value: Reference::new(1) }]),
                contained: Some(vec![Reference::new(2)]),
                ..owned_by(2)
            },
            owned_by(1),
        ],
        imports: vec![import_of(0, 0, 0)],
        names: texts(&["x"]),
    };
    assert!(package.is_valid());
    assert!(Package::new().is_valid());
    package.exports[1].outer = Reference::new(3);
    assert!(!package.is_valid());
    package.exports[1].outer = Reference::new(-1);
    assert!(package.is_valid());
    package.exports[1].before_construction = vec![Reference::new(-2)];
    assert!(!package.is_valid());
    package.exports[1].before_construction = vec![];
    package.exports[0].contained = Some(vec![Reference::new(9)]);
    assert!(!package.is_valid());
    package.exports[0].contained = None;
    package.exports[0].properties =
        Some(vec![Property::Object { name: named(1), value: Reference::new(1) }]);
    assert!(!package.is_valid());
    package.exports[0].properties =
        Some(vec![Property::Object { name: named(0), value: Reference::new(-2) }]);
    assert!(!package.is_valid());
    package.exports[0].properties = None;
    assert!(package.is_valid());
    package.imports[0].outer = Reference::new(-2);
    assert!(!package.is_valid());
    package.imports[0].outer = Reference::new(-1);
    package.imports[0].class_name = named(1);
    assert!(!package.is_valid());
    package.imports[0].class_name = named(0);
    package.exports[0].object_name = named(1);
    assert!(!package.is_valid());
}

#[test]
fn an_export_owns_what_its_owners_chain_leads_from() {
    // 0 is the actor; 1 and 3 are owned by it, 2 by 1; 4 is owned by nothing, 5 by an import
    let exports = vec![
        owned_by(0),
        owned_by(1),
        owned_by(2),
        owned_by(1),
        owned_by(0),
        owned_by(-1),
        owned_by(99),
    ];
    assert!(is_owned(&exports, 0, 0));
    assert!(is_owned(&exports, 0, 1));
    assert!(is_owned(&exports, 0, 2));
    assert!(is_owned(&exports, 0, 3));
    assert!(!is_owned(&exports, 0, 4));
    assert!(!is_owned(&exports, 0, 5));
    assert!(!is_owned(&exports, 0, 6));
    assert!(!is_owned(&exports, 0, 60));
    assert!(is_owned(&exports, 1, 2));
    assert!(!is_owned(&exports, 1, 0));
    assert!(!is_owned(&exports, 1, 3));
    assert_eq!(collect_subtree(&exports, 0), vec![0, 1, 2, 3]);
    assert_eq!(collect_subtree(&exports, 1), vec![1, 2]);
    assert_eq!(collect_subtree(&exports, 2), vec![2]);
    assert_eq!(collect_subtree(&exports, 4), vec![4]);
}

#[test]
fn the_root_comes_first_whatever_its_position() {
    let exports = vec![owned_by(3), owned_by(1), owned_by(0), owned_by(0)];
    // 3 is the actor, 0 is owned by it, 1 by 0
    assert_eq!(collect_subtree(&exports, 2), vec![2, 0, 1]);
}

#[test]
fn a_long_chain_of_owners_is_followed_to_its_end() {
    // each export is owned by the one before it
    let exports: Vec<Export> = (0..50).map(|i| owned_by(i)).collect();
    assert!(is_owned(&exports, 0, 49));
    assert_eq!(collect_subtree(&exports, 0), (0..50).collect::<Vec<usize>>());
    assert_eq!(collect_subtree(&exports, 47), vec![47, 48, 49]);
}

#[test]
fn moved_exports_get_the_places_behind_the_recipients() {
    let moved = vec![4, 0, 2];
    assert_eq!(find_place(&moved, 4), Some(0));
    assert_eq!(find_place(&moved, 2), Some(2));
    assert_eq!(find_place(&moved, 1), None);
    assert_eq!(place(&moved, 10, Reference::new(5)), Reference::new(11));
    assert_eq!(place(&moved, 10, Reference::new(1)), Reference::new(12));
    assert_eq!(place(&moved, 10, Reference::new(3)), Reference::new(13));
    assert_eq!(place(&moved, 10, Reference::new(2)), Reference::null());
    assert_eq!(place(&moved, 10, Reference::new(0)), Reference::null());
    assert_eq!(place(&moved, 10, Reference::new(-5)), Reference::null());
    assert_eq!(place(&moved, 0, Reference::new(5)), Reference::new(1));
}

use stove::{Actor, Export, Import, Name, Package, Property, Reference, TransplantError};

fn name(index: usize) -> Name {
    Name { index, number: 0 }
}

fn strings(list: &[&str]) -> Vec<String> {
    list.iter().map(|s| s.to_string()).collect()
}

fn object(object_name: Name) -> Export {
    Export {
        object_name,
        outer: Reference::null(),
        class: Reference::null(),
        template: Reference::null(),
        before_construction: vec![],
        before_serialization: vec![],
        properties: Some(vec![]),
        contained: None,
    }
}

fn level(object_name: Name) -> Export {
    Export { contained: Some(vec![]), ..object(object_name) }
}

fn import(class_package: usize, class_name: usize, object_name: usize, outer: i32) -> Import {
    Import {
        class_package: name(class_package),
        class_name: name(class_name),
        object_name: name(object_name),
        outer: Reference::new(outer),
    }
}

fn reads(package: &Package, name: Name) -> &str {
    &package.names[name.index]
}

fn triple<'a>(package: &'a Package, position: usize) -> (&'a str, &'a str, &'a str) {
    let import = package.imports[position];
    (
        reads(package, import.class_package),
        reads(package, import.class_name),
        reads(package, import.object_name),
    )
}

fn reference_is_sound(package: &Package, r: Reference) -> bool {
    if r.index > 0 {
        (r.index as usize) <= package.exports.len()
    } else if r.index < 0 {
        ((-r.index) as usize) <= package.imports.len()
    } else {
        true
    }
}

fn property_is_sound(package: &Package, property: &Property) -> bool {
    let named = |n: &Name| n.index < package.names.len();
    match property {
        Property::Scalar { name } => named(name),
        Property::Label { name, value } => named(name) && named(value),
        Property::Object { name, value } => named(name) && reference_is_sound(package, *value),
        Property::Delegate { name, object, function } => {
            named(name) && named(function) && reference_is_sound(package, *object)
        }
        Property::Struct { name, kind, fields } => {
            named(name) && named(kind) && fields.iter().all(|p| property_is_sound(package, p))
        }
        Property::Array { name, items } | Property::ItemSet { name, items } => {
            named(name) && items.iter().all(|p| property_is_sound(package, p))
        }
        Property::KeyMap { name, keys, values } => {
            named(name)
                && keys.iter().all(|p| property_is_sound(package, p))
                && values.iter().all(|p| property_is_sound(package, p))
        }
    }
}

fn package_is_sound(package: &Package) -> bool {
    package.exports.iter().all(|e| {
        e.object_name.index < package.names.len()
            && reference_is_sound(package, e.outer)
            && reference_is_sound(package, e.class)
            && reference_is_sound(package, e.template)
            && e.before_construction.iter().all(|r| reference_is_sound(package, *r))
            && e.before_serialization.iter().all(|r| reference_is_sound(package, *r))
            && e.contained.iter().flatten().all(|r| reference_is_sound(package, *r))
            && e.properties.iter().flatten().all(|p| property_is_sound(package, p))
    }) && package.imports.iter().all(|i| {
        i.class_package.index < package.names.len()
            && i.class_name.index < package.names.len()
            && i.object_name.index < package.names.len()
            && reference_is_sound(package, i.outer)
    })
}

/// A donor with one actor of class `Foo`, which is import -1.
fn donor_with_foo() -> Package {
    Package {
        exports: vec![Export { class: Reference::new(-1), ..object(name(0)) }],
        imports: vec![import(1, 2, 3, 0)],
        names: strings(&["RootActor", "/Script/Engine", "Class", "Foo"]),
    }
}

fn recipient_with_level() -> Package {
    Package { exports: vec![level(name(0))], imports: vec![], names: strings(&["Level"]) }
}

#[test]
fn actor_joins_level_with_its_import() {
    let donor = donor_with_foo();
    let mut recipient = recipient_with_level();
    assert_eq!(Actor::new(0).transplant(&mut recipient, &donor), Ok(()));
    assert_eq!(recipient.exports.len(), 2);
    assert_eq!(recipient.exports[1].outer, Reference::new(1));
    assert_eq!(recipient.exports[1].before_construction, vec![Reference::new(1)]);
    assert_eq!(recipient.exports[1].class, Reference::new(-1));
    assert_eq!(recipient.exports[0].contained, Some(vec![Reference::new(2)]));
    assert_eq!(recipient.exports[0].before_serialization, vec![Reference::new(2)]);
    assert_eq!(recipient.imports.len(), 1);
    assert_eq!(triple(&recipient, 0), ("/Script/Engine", "Class", "Foo"));
    assert_eq!(recipient.imports[0].outer, Reference::null());
    assert_eq!(reads(&recipient, recipient.exports[1].object_name), "RootActor");
    assert_eq!(
        recipient.names,
        strings(&["Level", "RootActor", "/Script/Engine", "Class", "Foo"])
    );
}

#[test]
fn missing_root_is_reported_and_nothing_changes() {
    let donor = donor_with_foo();
    let mut recipient = recipient_with_level();
    assert_eq!(
        Actor::new(1).transplant(&mut recipient, &donor),
        Err(TransplantError::MissingRoot)
    );
    assert_eq!(recipient, recipient_with_level());
    let empty = Package::new();
    assert_eq!(Actor::new(0).transplant(&mut recipient, &empty), Err(TransplantError::MissingRoot));
    assert_eq!(recipient, recipient_with_level());
}

#[test]
fn dangling_import_is_reported_and_nothing_changes() {
    // the class selects import -2, and the donor has one import
    let mut donor = donor_with_foo();
    donor.exports[0].class = Reference::new(-2);
    let mut recipient = recipient_with_level();
    assert_eq!(
        Actor::new(0).transplant(&mut recipient, &donor),
        Err(TransplantError::DanglingImport)
    );
    assert_eq!(recipient, recipient_with_level());
}

#[test]
fn dangling_import_in_a_property_is_reported() {
    let mut donor = donor_with_foo();
    donor.exports[0].properties = Some(vec![Property::Array {
        name: name(0),
        items: vec![Property::Object { name: name(0), value: Reference::new(-7) }],
    }]);
    let mut recipient = recipient_with_level();
    assert_eq!(
        Actor::new(0).transplant(&mut recipient, &donor),
        Err(TransplantError::DanglingImport)
    );
    assert_eq!(recipient, recipient_with_level());
}

#[test]
fn dangling_owner_of_a_new_import_is_reported() {
    // Foo is owned by import -5, which the donor does not have
    let mut donor = donor_with_foo();
    donor.imports[0].outer = Reference::new(-5);
    let mut recipient = recipient_with_level();
    assert_eq!(
        Actor::new(0).transplant(&mut recipient, &donor),
        Err(TransplantError::DanglingImport)
    );
    assert_eq!(recipient, recipient_with_level());
}

#[test]
fn dangling_owner_of_a_known_import_is_not_looked_at() {
    // the recipient has Foo already, so the owner of the donor's Foo is never asked for
    let mut donor = donor_with_foo();
    donor.imports[0].outer = Reference::new(-5);
    let mut recipient = Package {
        exports: vec![level(name(0))],
        imports: vec![import(3, 2, 1, 0)],
        names: strings(&["Level", "Foo", "Class", "/Script/Engine"]),
    };
    assert_eq!(Actor::new(0).transplant(&mut recipient, &donor), Ok(()));
    assert_eq!(recipient.imports, vec![import(3, 2, 1, 0)]);
    assert_eq!(recipient.exports[1].class, Reference::new(-1));
}

#[test]
fn known_import_is_reused() {
    let donor = Package {
        exports: vec![Export {
            class: Reference::new(-2),
            template: Reference::new(-1),
            ..object(name(0))
        }],
        imports: vec![import(1, 2, 4, 0), import(1, 2, 3, 0)],
        names: strings(&["RootActor", "/Script/Engine", "Class", "Foo", "Bar"]),
    };
    let mut recipient = Package {
        exports: vec![level(name(0))],
        imports: vec![import(1, 2, 3, 0), import(4, 2, 5, 0), import(4, 2, 5, 0)],
        names: strings(&["Level", "/Script/Core", "Class", "Object", "/Script/Engine", "Foo"]),
    };
    assert_eq!(Actor::new(0).transplant(&mut recipient, &donor), Ok(()));
    // Foo is the recipient's import -2, the first of the two that read the same
    assert_eq!(recipient.exports[1].class, Reference::new(-2));
    // Bar is new and stands behind the three that were there
    assert_eq!(recipient.exports[1].template, Reference::new(-4));
    assert_eq!(recipient.imports.len(), 4);
    assert_eq!(&recipient.imports[..3], &[import(1, 2, 3, 0), import(4, 2, 5, 0), import(4, 2, 5, 0)]);
    assert_eq!(triple(&recipient, 3), ("/Script/Engine", "Class", "Bar"));
    assert!(package_is_sound(&recipient));
    assert!(recipient.is_valid());
}

#[test]
fn names_with_different_numbers_are_different_objects() {
    let mut donor = donor_with_foo();
    donor.imports[0].object_name = Name { index: 3, number: 2 };
    let mut recipient = Package {
        exports: vec![level(name(0))],
        imports: vec![import(3, 2, 1, 0)],
        names: strings(&["Level", "Foo", "Class", "/Script/Engine"]),
    };
    assert_eq!(Actor::new(0).transplant(&mut recipient, &donor), Ok(()));
    assert_eq!(recipient.imports.len(), 2);
    assert_eq!(recipient.exports[1].class, Reference::new(-2));
    assert_eq!(recipient.imports[1].object_name, Name { index: 1, number: 2 });
}

#[test]
fn same_object_is_taken_over_once() {
    // the actor and the component it owns refer to two imports that read the same
    let donor = Package {
        exports: vec![
            Export { class: Reference::new(-1), ..object(name(0)) },
            Export { class: Reference::new(-2), outer: Reference::new(1), ..object(name(4)) },
        ],
        imports: vec![import(1, 2, 3, 0), import(1, 2, 3, 0)],
        names: strings(&["RootActor", "/Script/Engine", "Class", "Foo", "Component"]),
    };
    let mut recipient = recipient_with_level();
    assert_eq!(Actor::new(0).transplant(&mut recipient, &donor), Ok(()));
    assert_eq!(recipient.imports.len(), 1);
    assert_eq!(triple(&recipient, 0), ("/Script/Engine", "Class", "Foo"));
    assert_eq!(recipient.exports[1].class, Reference::new(-1));
    assert_eq!(recipient.exports[2].class, Reference::new(-1));
    assert_eq!(recipient.exports[2].outer, Reference::new(2));
    assert!(package_is_sound(&recipient));
    assert!(recipient.is_valid());
}

#[test]
fn owners_of_imports_come_along() {
    // Foo is owned by Pack, which is owned by Top
    let donor = Package {
        exports: vec![Export { class: Reference::new(-3), ..object(name(0)) }],
        imports: vec![import(1, 2, 5, 0), import(1, 2, 4, -1), import(1, 2, 3, -2)],
        names: strings(&["RootActor", "/Script/Engine", "Class", "Foo", "Pack", "Top"]),
    };
    let mut recipient = recipient_with_level();
    assert_eq!(Actor::new(0).transplant(&mut recipient, &donor), Ok(()));
    assert_eq!(recipient.imports.len(), 3);
    assert_eq!(recipient.exports[1].class, Reference::new(-1));
    assert_eq!(triple(&recipient, 0).2, "Foo");
    assert_eq!(recipient.imports[0].outer, Reference::new(-2));
    assert_eq!(triple(&recipient, 1).2, "Pack");
    assert_eq!(recipient.imports[1].outer, Reference::new(-3));
    assert_eq!(triple(&recipient, 2).2, "Top");
    assert_eq!(recipient.imports[2].outer, Reference::null());
    assert!(package_is_sound(&recipient));
    assert!(recipient.is_valid());
}

#[test]
fn owner_that_the_recipient_has_is_reused() {
    // Foo is owned by Pack; the recipient has Pack as its second import
    let donor = Package {
        exports: vec![Export { class: Reference::new(-1), ..object(name(0)) }],
        imports: vec![import(1, 2, 3, -2), import(1, 2, 4, 0)],
        names: strings(&["RootActor", "/Script/Engine", "Class", "Foo", "Pack"]),
    };
    let mut recipient = Package {
        exports: vec![level(name(0))],
        imports: vec![import(1, 2, 3, 0), import(1, 2, 4, 0)],
        names: strings(&["Level", "/Script/Engine", "Class", "Other", "Pack"]),
    };
    assert_eq!(Actor::new(0).transplant(&mut recipient, &donor), Ok(()));
    assert_eq!(recipient.imports.len(), 3);
    assert_eq!(triple(&recipient, 2).2, "Foo");
    assert_eq!(recipient.imports[2].outer, Reference::new(-2));
    assert_eq!(recipient.exports[1].class, Reference::new(-3));
}

#[test]
fn owner_queued_earlier_is_found_in_the_queue() {
    // the actor refers to Pack first and to Foo second; Foo is owned by Pack
    let donor = Package {
        exports: vec![Export {
            class: Reference::new(-2),
            template: Reference::new(-1),
            ..object(name(0))
        }],
        imports: vec![import(1, 2, 3, -2), import(1, 2, 4, 0)],
        names: strings(&["RootActor", "/Script/Engine", "Class", "Foo", "Pack"]),
    };
    let mut recipient = recipient_with_level();
    assert_eq!(Actor::new(0).transplant(&mut recipient, &donor), Ok(()));
    assert_eq!(recipient.imports.len(), 2);
    assert_eq!(triple(&recipient, 0).2, "Pack");
    assert_eq!(triple(&recipient, 1).2, "Foo");
    assert_eq!(recipient.imports[1].outer, Reference::new(-1));
    assert_eq!(recipient.exports[1].class, Reference::new(-1));
    assert_eq!(recipient.exports[1].template, Reference::new(-2));
}

#[test]
fn taken_name_gets_a_number() {
    let mut donor = donor_with_foo();
    donor.names[0] = "Cube".to_string();
    let mut recipient = Package {
        exports: vec![level(name(0)), object(name(1))],
        imports: vec![],
        names: strings(&["Level", "Cube"]),
    };
    assert_eq!(Actor::new(0).transplant(&mut recipient, &donor), Ok(()));
    let given = recipient.exports[2].object_name;
    assert_eq!(reads(&recipient, given), "Cube1");
    assert_eq!(given.index, 2);
    assert!(!["Level", "Cube"].contains(&reads(&recipient, given)));
}

#[test]
fn number_of_a_taken_name_is_counted_up() {
    let mut donor = donor_with_foo();
    donor.names[0] = "Cube2".to_string();
    let mut recipient = Package {
        exports: vec![level(name(0))],
        imports: vec![],
        names: strings(&["Level", "Cube2", "Cube3", "Cube5"]),
    };
    assert_eq!(Actor::new(0).transplant(&mut recipient, &donor), Ok(()));
    assert_eq!(reads(&recipient, recipient.exports[1].object_name), "Cube4");
}

#[test]
fn free_name_is_kept() {
    let donor = donor_with_foo();
    let mut recipient = recipient_with_level();
    assert_eq!(Actor::new(0).transplant(&mut recipient, &donor), Ok(()));
    assert_eq!(recipient.exports[1].object_name, Name { index: 1, number: 0 });
    assert_eq!(recipient.names[1], "RootActor");
}

#[test]
fn number_of_the_name_is_kept() {
    let mut donor = donor_with_foo();
    donor.exports[0].object_name = Name { index: 0, number: 7 };
    let mut recipient = recipient_with_level();
    assert_eq!(Actor::new(0).transplant(&mut recipient, &donor), Ok(()));
    assert_eq!(recipient.exports[1].object_name, Name { index: 1, number: 7 });
}

#[test]
fn container_takes_the_actor_in() {
    let donor = donor_with_foo();
    let mut recipient = Package {
        exports: vec![
            object(name(1)),
            Export {
                contained: Some(vec![Reference::new(1)]),
                before_serialization: vec![Reference::new(1)],
                ..object(name(0))
            },
            Export { contained: Some(vec![]), ..object(name(1)) },
        ],
        imports: vec![],
        names: strings(&["Level", "Thing"]),
    };
    assert_eq!(Actor::new(0).transplant(&mut recipient, &donor), Ok(()));
    // the first container takes the actor, which is export 4
    assert_eq!(recipient.exports[1].contained, Some(vec![Reference::new(1), Reference::new(4)]));
    assert_eq!(
        recipient.exports[1].before_serialization,
        vec![Reference::new(1), Reference::new(4)]
    );
    assert_eq!(recipient.exports[3].outer, Reference::new(2));
    assert_eq!(recipient.exports[3].before_construction, vec![Reference::new(2)]);
    // nothing else about what was there has changed
    assert_eq!(recipient.exports[0], object(name(1)));
    assert_eq!(recipient.exports[2], Export { contained: Some(vec![]), ..object(name(1)) });
    assert_eq!(recipient.exports[1].object_name, name(0));
}

#[test]
fn without_a_container_the_actor_is_owned_by_nothing() {
    let mut donor = donor_with_foo();
    // in the donor the actor is owned by export 2, which does not move
    donor.exports.push(level(name(0)));
    donor.exports[0].outer = Reference::new(2);
    donor.exports[0].before_construction = vec![Reference::new(2), Reference::new(-1)];
    let mut recipient = Package {
        exports: vec![object(name(0))],
        imports: vec![],
        names: strings(&["Thing"]),
    };
    assert_eq!(Actor::new(0).transplant(&mut recipient, &donor), Ok(()));
    assert_eq!(recipient.exports.len(), 2);
    assert_eq!(recipient.exports[0], object(name(0)));
    assert_eq!(recipient.exports[1].outer, Reference::null());
    assert_eq!(recipient.exports[1].before_construction, vec![Reference::null(), Reference::null()]);
    assert_eq!(recipient.exports[1].class, Reference::new(-1));
    assert!(package_is_sound(&recipient));
    assert!(recipient.is_valid());
}

/// A donor with a level (export 1), an actor (export 3) that owns two
/// components (exports 2 and 5), one of which owns a part (export 6), and a
/// bystander (export 4).
fn donor_with_family() -> Package {
    let names = strings(&[
        "Level",
        "Mesh",
        "Actor",
        "Bystander",
        "Light",
        "Bulb",
        "/Script/Engine",
        "Class",
        "StaticMeshComponent",
        "Target",
        "Root",
        "Parts",
        "Vector",
        "OnHit",
        "Handle",
    ]);
    let mesh = Export {
        outer: Reference::new(3),
        class: Reference::new(-1),
        before_construction: vec![Reference::new(3)],
        ..object(name(1))
    };
    let actor = Export {
        outer: Reference::new(1),
        class: Reference::new(4),
        before_construction: vec![Reference::new(1)],
        before_serialization: vec![Reference::new(2), Reference::new(5), Reference::new(-1)],
        properties: Some(vec![
            Property::Object { name: name(10), value: Reference::new(2) },
            Property::Array {
                name: name(11),
                items: vec![
                    Property::Object { name: name(11), value: Reference::new(5) },
                    Property::Object { name: name(11), value: Reference::new(6) },
                    Property::Object { name: name(11), value: Reference::new(4) },
                ],
            },
            Property::Struct {
                name: name(9),
                kind: name(12),
                fields: vec![
                    Property::Scalar { name: name(9) },
                    Property::Delegate { name: name(13), object: Reference::new(3), function: name(14) },
                    Property::Label { name: name(9), value: name(3) },
                ],
            },
            Property::KeyMap {
                name: name(11),
                keys: vec![Property::Label { name: name(11), value: name(4) }],
                values: vec![Property::Object { name: name(11), value: Reference::new(-1) }],
            },
            Property::ItemSet {
                name: name(11),
                items: vec![Property::Object { name: name(11), value: Reference::new(90) }],
            },
        ]),
        ..object(name(2))
    };
    let bystander = Export { outer: Reference::new(1), ..object(name(3)) };
    let light = Export { outer: Reference::new(3), template: Reference::new(2), ..object(name(4)) };
    let bulb = Export { outer: Reference::new(5), class: Reference::new(3), ..object(name(5)) };
    Package {
        exports: vec![
            Export { contained: Some(vec![Reference::new(3), Reference::new(4)]), ..object(name(0)) },
            mesh,
            actor,
            bystander,
            light,
            bulb,
        ],
        imports: vec![import(6, 7, 8, 0)],
        names,
    }
}

#[test]
fn everything_the_actor_owns_moves_with_it() {
    let donor = donor_with_family();
    let mut recipient = Package {
        exports: vec![object(name(1)), level(name(0))],
        imports: vec![],
        names: strings(&["Level", "Mesh"]),
    };
    assert_eq!(Actor::new(2).transplant(&mut recipient, &donor), Ok(()));
    // the actor first, then what it owns in the order of the donor's table
    assert_eq!(recipient.exports.len(), 6);
    let read = |i: usize| reads(&recipient, recipient.exports[i].object_name);
    assert_eq!(read(2), "Actor");
    assert_eq!(read(3), "Mesh");
    assert_eq!(read(4), "Light");
    assert_eq!(read(5), "Bulb");
    // owners follow
    assert_eq!(recipient.exports[2].outer, Reference::new(2));
    assert_eq!(recipient.exports[3].outer, Reference::new(3));
    assert_eq!(recipient.exports[4].outer, Reference::new(3));
    assert_eq!(recipient.exports[5].outer, Reference::new(5));
    assert_eq!(recipient.exports[3].before_construction, vec![Reference::new(3)]);
    // references among the moved follow, and those to what stayed behind are null
    assert_eq!(recipient.exports[2].class, Reference::null());
    assert_eq!(recipient.exports[4].template, Reference::new(4));
    assert_eq!(recipient.exports[5].class, Reference::new(3));
    assert_eq!(
        recipient.exports[2].before_serialization,
        vec![Reference::new(4), Reference::new(5), Reference::new(-1)]
    );
    assert_eq!(recipient.exports[3].class, Reference::new(-1));
    let n = |text: &str| Name {
        index: recipient.names.iter().position(|s| s == text).unwrap(),
        number: 0,
    };
    assert_eq!(
        recipient.exports[2].properties,
        Some(vec![
            Property::Object { name: n("Root"), value: Reference::new(4) },
            Property::Array {
                name: n("Parts"),
                items: vec![
                    Property::Object { name: n("Parts"), value: Reference::new(5) },
                    Property::Object { name: n("Parts"), value: Reference::new(6) },
                    Property::Object { name: n("Parts"), value: Reference::null() },
                ],
            },
            Property::Struct {
                name: n("Target"),
                kind: n("Vector"),
                fields: vec![
                    Property::Scalar { name: n("Target") },
                    Property::Delegate {
                        name: n("OnHit"),
                        object: Reference::new(3),
                        function: n("Handle"),
                    },
                    Property::Label { name: n("Target"), value: n("Bystander") },
                ],
            },
            Property::KeyMap {
                name: n("Parts"),
                keys: vec![Property::Label { name: n("Parts"), value: n("Light") }],
                values: vec![Property::Object { name: n("Parts"), value: Reference::new(-1) }],
            },
            Property::ItemSet {
                name: n("Parts"),
                items: vec![Property::Object { name: n("Parts"), value: Reference::null() }],
            },
        ])
    );
    // strings are taken over where they first occur, and those that were there are reused
    assert_eq!(
        recipient.names,
        strings(&[
            "Level",
            "Mesh",
            "Actor",
            "Root",
            "Parts",
            "Target",
            "Vector",
            "OnHit",
            "Handle",
            "Bystander",
            "Light",
            "Bulb",
            "/Script/Engine",
            "Class",
            "StaticMeshComponent",
        ])
    );
    assert_eq!(recipient.exports[3].object_name, name(1));
    // the container
    assert_eq!(recipient.exports[1].contained, Some(vec![Reference::new(3)]));
    assert_eq!(recipient.exports[0], object(name(1)));
    assert!(package_is_sound(&recipient));
    assert!(recipient.is_valid());
    // the donor is as it was
    assert_eq!(donor, donor_with_family());
}

#[test]
fn exports_owned_in_a_circle_do_not_move() {
    // exports 2 and 3 own each other; export 4 is owned by the actor
    let donor = Package {
        exports: vec![
            object(name(0)),
            Export { outer: Reference::new(3), ..object(name(1)) },
            Export { outer: Reference::new(2), ..object(name(1)) },
            Export { outer: Reference::new(1), ..object(name(2)) },
            Export { outer: Reference::new(9), ..object(name(1)) },
            Export { outer: Reference::new(-1), ..object(name(1)) },
        ],
        imports: vec![],
        names: strings(&["Actor", "Loop", "Child"]),
    };
    let mut recipient = recipient_with_level();
    assert_eq!(Actor::new(0).transplant(&mut recipient, &donor), Ok(()));
    assert_eq!(recipient.exports.len(), 3);
    assert_eq!(reads(&recipient, recipient.exports[2].object_name), "Child");
    assert_eq!(recipient.exports[2].outer, Reference::new(2));
}

#[test]
fn an_actor_that_owns_itself_moves_alone() {
    let donor = Package {
        exports: vec![Export { outer: Reference::new(1), ..object(name(0)) }],
        imports: vec![],
        names: strings(&["Actor"]),
    };
    let mut recipient = Package::new();
    assert_eq!(Actor::new(0).transplant(&mut recipient, &donor), Ok(()));
    assert_eq!(recipient.exports.len(), 1);
    // the actor is among the moved, so the reference follows it
    assert_eq!(recipient.exports[0].outer, Reference::new(1));
    assert!(package_is_sound(&recipient));
    assert!(recipient.is_valid());
}

#[test]
fn a_moved_container_keeps_what_moved_with_it() {
    let donor = Package {
        exports: vec![
            Export {
                contained: Some(vec![Reference::new(2), Reference::new(3), Reference::new(-1)]),
                ..object(name(0))
            },
            Export { outer: Reference::new(1), ..object(name(1)) },
            object(name(1)),
        ],
        imports: vec![import(0, 0, 0, 0)],
        names: strings(&["Group", "Member"]),
    };
    let mut recipient = Package { exports: vec![object(name(0))], imports: vec![], names: strings(&["X"]) };
    assert_eq!(Actor::new(0).transplant(&mut recipient, &donor), Ok(()));
    assert_eq!(
        recipient.exports[1].contained,
        Some(vec![Reference::new(3), Reference::null(), Reference::null()])
    );
    assert_eq!(recipient.imports.len(), 0);
}

#[test]
fn a_name_beyond_the_table_reads_as_nothing() {
    let mut donor = donor_with_foo();
    donor.exports[0].properties = Some(vec![Property::Scalar { name: name(40) }]);
    let mut recipient = recipient_with_level();
    assert_eq!(Actor::new(0).transplant(&mut recipient, &donor), Ok(()));
    let moved = &recipient.exports[1];
    match &moved.properties.as_ref().unwrap()[0] {
        Property::Scalar { name } => assert_eq!(reads(&recipient, *name), ""),
        other => panic!("{:?}", other),
    }
    assert!(package_is_sound(&recipient));
    assert!(recipient.is_valid());
}

#[test]
fn transplanting_twice_gives_two_actors() {
    let donor = donor_with_foo();
    let mut recipient = recipient_with_level();
    assert_eq!(Actor::new(0).transplant(&mut recipient, &donor), Ok(()));
    assert_eq!(Actor::new(0).transplant(&mut recipient, &donor), Ok(()));
    assert_eq!(recipient.exports.len(), 3);
    assert_eq!(reads(&recipient, recipient.exports[1].object_name), "RootActor");
    assert_eq!(reads(&recipient, recipient.exports[2].object_name), "RootActor1");
    assert_eq!(recipient.imports.len(), 1);
    assert_eq!(recipient.exports[2].class, Reference::new(-1));
    assert_eq!(recipient.exports[0].contained, Some(vec![Reference::new(2), Reference::new(3)]));
    assert!(package_is_sound(&recipient));
    assert!(recipient.is_valid());
}

#[test]
fn transplanting_within_one_table_of_strings_reuses_every_string() {
    let donor = donor_with_foo();
    let mut recipient = Package {
        exports: vec![],
        imports: vec![],
        names: strings(&["Foo", "Class", "/Script/Engine", "Other"]),
    };
    assert_eq!(Actor::new(0).transplant(&mut recipient, &donor), Ok(()));
    assert_eq!(
        recipient.names,
        strings(&["Foo", "Class", "/Script/Engine", "Other", "RootActor"])
    );
    assert_eq!(recipient.imports, vec![import(2, 1, 0, 0)]);
}

#[test]
fn a_deep_chain_of_owners_is_taken_over_whole() {
    // import k is owned by import k + 1, and the last by nothing
    let depth = 300;
    let mut names = strings(&["RootActor", "/Script/Engine", "Class"]);
    let mut imports = Vec::new();
    for k in 0..depth {
        names.push(format!("Link{}", k));
        let outer = if k + 1 < depth { -(k as i32 + 2) } else { 0 };
        imports.push(import(1, 2, 3 + k, outer));
    }
    let donor = Package {
        exports: vec![Export { class: Reference::new(-1), ..object(name(0)) }],
        imports,
        names,
    };
    let mut recipient = recipient_with_level();
    assert_eq!(Actor::new(0).transplant(&mut recipient, &donor), Ok(()));
    assert_eq!(recipient.imports.len(), depth);
    for k in 0..depth {
        assert_eq!(triple(&recipient, k).2, format!("Link{}", k));
        let outer = if k + 1 < depth { -(k as i32 + 2) } else { 0 };
        assert_eq!(recipient.imports[k].outer, Reference::new(outer));
    }
    assert!(recipient.is_valid());
}

#[test]
fn owners_in_a_circle_are_taken_over_once() {
    // Foo is owned by Bar, and Bar by Foo
    let donor = Package {
        exports: vec![Export { class: Reference::new(-1), ..object(name(0)) }],
        imports: vec![import(1, 2, 3, -2), import(1, 2, 4, -1)],
        names: strings(&["RootActor", "/Script/Engine", "Class", "Foo", "Bar"]),
    };
    let mut recipient = recipient_with_level();
    assert_eq!(Actor::new(0).transplant(&mut recipient, &donor), Ok(()));
    assert_eq!(recipient.imports.len(), 2);
    assert_eq!(triple(&recipient, 0).2, "Foo");
    assert_eq!(recipient.imports[0].outer, Reference::new(-2));
    assert_eq!(triple(&recipient, 1).2, "Bar");
    assert_eq!(recipient.imports[1].outer, Reference::new(-1));
    assert!(recipient.is_valid());
}

#[test]
fn an_import_owned_by_an_export_loses_its_owner_unless_the_export_moves() {
    let donor = Package {
        exports: vec![
            Export { class: Reference::new(-1), template: Reference::new(-2), ..object(name(0)) },
            object(name(0)),
        ],
        imports: vec![import(1, 2, 3, 1), import(1, 2, 4, 2)],
        names: strings(&["RootActor", "/Script/Engine", "Class", "Foo", "Bar"]),
    };
    let mut recipient = recipient_with_level();
    assert_eq!(Actor::new(0).transplant(&mut recipient, &donor), Ok(()));
    assert_eq!(recipient.imports[0].outer, Reference::new(2));
    assert_eq!(recipient.imports[1].outer, Reference::null());
    assert!(recipient.is_valid());
}

#[test]
fn a_valid_recipient_stays_valid() {
    let donor = donor_with_family();
    let mut recipient = Package {
        exports: vec![
            Export { outer: Reference::new(2), class: Reference::new(-1), ..object(name(1)) },
            Export { contained: Some(vec![Reference::new(1)]), ..object(name(0)) },
        ],
        imports: vec![import(2, 3, 4, 0)],
        names: strings(&["Level", "Mesh", "/Script/Engine", "Class", "StaticMeshComponent"]),
    };
    assert!(recipient.is_valid());
    let before_imports = recipient.imports.clone();
    let before_names = recipient.names.clone();
    let first = recipient.exports[0].duplicate();
    assert_eq!(Actor::new(2).transplant(&mut recipient, &donor), Ok(()));
    assert!(recipient.is_valid());
    assert_eq!(&recipient.imports[..1], &before_imports[..]);
    assert_eq!(&recipient.names[..5], &before_names[..]);
    assert_eq!(recipient.exports[0], first);
    // the mesh component is the recipient's own import
    assert_eq!(recipient.imports.len(), 1);
    assert_eq!(recipient.exports[3].class, Reference::new(-1));
}

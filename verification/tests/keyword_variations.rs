use slang_runtime::model::KeywordValue;

#[test]
fn test_atom() {
    let value = KeywordValue::Atom { atom: "foo".into() };

    assert_eq!(value.collect_variations(), vec!["foo"]);
}

#[test]
fn test_optional() {
    let value = KeywordValue::Optional {
        value: KeywordValue::Atom { atom: "foo".into() }.into(),
    };

    assert_eq!(value.collect_variations(), vec!["", "foo"]);

    let value = KeywordValue::Sequence {
        values: vec![
            KeywordValue::Atom { atom: "foo".into() },
            KeywordValue::Optional {
                value: KeywordValue::Atom { atom: "bar".into() }.into(),
            },
        ],
    };

    assert_eq!(value.collect_variations(), vec!["foo", "foobar"]);
}

#[test]
fn test_choice() {
    let value = KeywordValue::Choice {
        values: vec![
            KeywordValue::Atom { atom: "foo".into() },
            KeywordValue::Atom { atom: "bar".into() },
        ],
    };

    assert_eq!(value.collect_variations(), vec!["foo", "bar"]);
}

#[test]
fn test_sequence() {
    let value = KeywordValue::Sequence {
        values: vec![
            KeywordValue::Atom { atom: "foo".into() },
            KeywordValue::Atom { atom: "bar".into() },
        ],
    };

    assert_eq!(value.collect_variations(), vec!["foobar"]);
}

#[test]
fn test_all() {
    let value = KeywordValue::Sequence {
        values: vec![
            KeywordValue::Atom { atom: "foo".into() },
            KeywordValue::Optional {
                value: KeywordValue::Sequence {
                    values: vec![
                        KeywordValue::Atom { atom: "_".into() },
                        KeywordValue::Choice {
                            values: vec![
                                KeywordValue::Atom { atom: "1".into() },
                                KeywordValue::Atom { atom: "2".into() },
                                KeywordValue::Atom { atom: "3".into() },
                                KeywordValue::Atom { atom: "4".into() },
                                KeywordValue::Atom { atom: "5".into() },
                            ],
                        },
                    ],
                }
                .into(),
            },
        ],
    };

    assert_eq!(
        value.collect_variations(),
        vec!["foo", "foo_1", "foo_2", "foo_3", "foo_4", "foo_5",]
    );
}

#[test]
fn test_product() {
    let value = KeywordValue::Sequence {
        values: vec![
            KeywordValue::Choice {
                values: vec![
                    KeywordValue::Atom { atom: "1".into() },
                    KeywordValue::Atom { atom: "2".into() },
                    KeywordValue::Atom { atom: "3".into() },
                ],
            },
            KeywordValue::Atom { atom: "x".into() },
            KeywordValue::Choice {
                values: vec![
                    KeywordValue::Atom { atom: "1".into() },
                    KeywordValue::Atom { atom: "2".into() },
                    KeywordValue::Atom { atom: "3".into() },
                ],
            },
            KeywordValue::Atom { atom: "x".into() },
            KeywordValue::Choice {
                values: vec![
                    KeywordValue::Atom { atom: "1".into() },
                    KeywordValue::Atom { atom: "2".into() },
                    KeywordValue::Atom { atom: "3".into() },
                ],
            },
        ],
    };

    assert_eq!(
        value.collect_variations(),
        vec![
            "1x1x1", "1x1x2", "1x1x3", "1x2x1", "1x2x2", "1x2x3", "1x3x1", "1x3x2", "1x3x3",
            "2x1x1", "2x1x2", "2x1x3", "2x2x1", "2x2x2", "2x2x3", "2x3x1", "2x3x2", "2x3x3",
            "3x1x1", "3x1x2", "3x1x3", "3x2x1", "3x2x2", "3x2x3", "3x3x1", "3x3x2", "3x3x3",
        ]
    );
}

use music_typer::{DistanceIncremental, PositionIncremental};

#[test]
fn test_score_incremental() {
    let mut inc = DistanceIncremental::new("hello");
    assert_eq!(inc.distance(), 5);
    inc.add_other_char('h');
    assert_eq!(inc.distance(), 4);
    for chara in &['i', 'l', 'l', 'o'] {
        inc.add_other_char(*chara);
    }
    assert_eq!(inc.distance(), 1);
    inc.add_other_char('u');
    assert_eq!(inc.distance(), 2);
    inc.pop_other_char();
    assert_eq!(inc.distance(), 1);

    let mut inc = DistanceIncremental::new("hi");
    inc.add_other_str("hi");
    assert_eq!(inc.distance(), 0);

    // test that pop work as expected
    println!("starting long pop test");
    let test_text = "Hello world this is a long tex";
    let mut inc = DistanceIncremental::new(test_text);
    let mut test_score_at = vec![];
    for chara in test_text.chars() {
        test_score_at.push(inc.distance());
        inc.add_other_char(chara);
    }

    for original_distance in test_score_at.iter().rev() {
        let original_distance = *original_distance;
        inc.pop_other_char();
        assert_eq!(original_distance, inc.distance());
    }
}

#[test]
fn test_position_incremental() {
    let mut position = PositionIncremental::new("hello world");
    assert_eq!(position.position(1), 0);
    position.add_other_char('h');
    assert_eq!(position.position(1), 1);
    position.add_other_char('e');
    assert_eq!(position.position(1), 2);
    position.add_other_char('l');
    position.add_other_char('l');
    position.add_other_char('o');
    assert_eq!(position.position(1), 5);
    position.add_other_str(" world");
    assert_eq!(position.position(1), 11);
    position.pop_other_char();
    assert_eq!(position.position(1), 10);

    let mut position = PositionIncremental::new("hello world");
    position.add_other_str("lla wrld");
    assert_eq!(position.position(2), 11);
}

#[test]
fn distance_to_empty_is_source_length() {
    assert_eq!(DistanceIncremental::new("").distance(), 0);
    assert_eq!(DistanceIncremental::new("abc").distance(), 3);
}

#[test]
fn distance_from_empty_source_is_typed_length() {
    let mut inc = DistanceIncremental::new("");
    inc.add_other_str("typed");
    assert_eq!(inc.distance(), 5);
}

#[test]
fn distance_to_itself_is_zero() {
    let text = "the quick brown fox jumps over the lazy dog";
    let mut inc = DistanceIncremental::new(text);
    inc.add_other_str(text);
    assert_eq!(inc.distance(), 0);
}

#[test]
fn distance_is_symmetric() {
    let mut ab = DistanceIncremental::new("kitten");
    ab.add_other_str("sitting");
    let mut ba = DistanceIncremental::new("sitting");
    ba.add_other_str("kitten");
    assert_eq!(ab.distance(), 3);
    assert_eq!(ba.distance(), 3);
}

#[test]
fn distance_formula_examples() {
    let mut inc = DistanceIncremental::new("flaw");
    inc.add_other_str("lawn");
    assert_eq!(inc.distance(), 2);
    let mut inc = DistanceIncremental::new("abc");
    inc.add_other_str("xyz");
    assert_eq!(inc.distance(), 3);
    let mut inc = DistanceIncremental::new("ab");
    inc.add_other_str("abcd");
    assert_eq!(inc.distance(), 2);
}

#[test]
fn pop_undoes_add_across_saved_rows() {
    let source = "abcdefghijklmnopqrstuvwxyz abcdefghijklmnopqrstuvwxyz";
    let typed = "abcxefghijklmnopqrstuvwxyzabcdefghij";
    let mut inc = DistanceIncremental::new(source);
    let mut pos = PositionIncremental::new(source);
    let mut distances = vec![];
    let mut positions = vec![];
    for c in typed.chars() {
        distances.push(inc.distance());
        positions.push(pos.position(3));
        inc.add_other_char(c);
        pos.add_other_char(c);
    }
    for (d, p) in distances.iter().zip(positions.iter()).rev() {
        inc.pop_other_char();
        pos.pop_other_char();
        assert_eq!(*d, inc.distance());
        assert_eq!(*p, pos.position(3));
    }
}

#[test]
fn pop_on_empty_changes_nothing() {
    let mut inc = DistanceIncremental::new("abc");
    inc.pop_other_char();
    assert_eq!(inc.distance(), 3);
    inc.add_other_char('a');
    inc.pop_other_char();
    inc.pop_other_char();
    assert_eq!(inc.distance(), 3);
    let mut pos = PositionIncremental::new("abc");
    pos.pop_other_char();
    assert_eq!(pos.position(0), 0);
}

#[test]
fn add_str_is_add_chars() {
    let mut by_str = DistanceIncremental::new("abcdefghijklmnop");
    by_str.add_other_str("abdefghijklmnopq");
    let mut by_char = DistanceIncremental::new("abcdefghijklmnop");
    for c in "abdefghijklmnopq".chars() {
        by_char.add_other_char(c);
    }
    assert_eq!(by_str.distance(), by_char.distance());
    assert_eq!(by_str.distance(), 2);
}

#[test]
fn position_up_to_precision_is_typed_length() {
    let mut position = PositionIncremental::new("hello world");
    position.add_other_str("xyz");
    assert_eq!(position.position(3), 3);
    assert_eq!(position.position(10), 3);
}

#[test]
fn position_with_zero_precision() {
    let mut position = PositionIncremental::new("hello world");
    position.add_other_str("hello");
    assert_eq!(position.position(0), 5);
}

#[test]
fn exact_prefix_gives_its_length_as_position() {
    let source = "abababab cdcdcd abab";
    for k in 0..=source.chars().count() {
        let prefix: String = source.chars().take(k).collect();
        for precision in [0usize, 1, 2, 5] {
            let mut position = PositionIncremental::new(source);
            position.add_other_str(&prefix);
            assert_eq!(position.position(precision), k);
        }
    }
}

#[test]
fn adding_a_char_moves_the_distance_by_at_most_one() {
    let mut inc = DistanceIncremental::new("incremental");
    let mut last = inc.distance();
    for c in "ncrementalxyzincr".chars() {
        inc.add_other_char(c);
        let now = inc.distance();
        assert!(now <= last + 1 && last <= now + 1);
        last = now;
    }
    assert_eq!(inc.distance(), 8);
}

use seance::{animation_bundle, step_frame, Animation, AnimationDefinition, BLINK_ANIMATION, TALK_ANIMATION};

#[test]
fn simple_animation_wraps() {
    assert_eq!(step_frame(&AnimationDefinition::Simple, 0, 3, 0), (1, 1));
    assert_eq!(step_frame(&AnimationDefinition::Simple, 2, 3, 0), (0, 0));
    let mut a = Animation::new(AnimationDefinition::Simple, vec![7, 8, 9]);
    assert_eq!(a.advance(), 8);
    assert_eq!(a.advance(), 9);
    assert_eq!(a.advance(), 7);
}

#[test]
fn blink_steps() {
    assert_eq!(step_frame(&BLINK_ANIMATION, 0, 3, 20), (2, 20));
    assert_eq!(step_frame(&BLINK_ANIMATION, 1, 3, 20), (1, 0));
    assert_eq!(step_frame(&BLINK_ANIMATION, 5, 3, 20), (0, 4));
    assert_eq!(step_frame(&BLINK_ANIMATION, 2, 3, 20), (0, 1));
}

#[test]
fn talk_steps() {
    assert_eq!(step_frame(&TALK_ANIMATION, 0, 3, 4), (1, 4));
    assert_eq!(step_frame(&TALK_ANIMATION, 1, 3, 4), (0, 0));
    assert_eq!(step_frame(&TALK_ANIMATION, 2, 3, 4), (1, 1));
    assert_eq!(step_frame(&TALK_ANIMATION, 7, 3, 4), (2, 4));
}

#[test]
fn blink_draws_its_pause_at_random() {
    let mut seen = std::collections::HashSet::new();
    for _ in 0..200 {
        let mut a = Animation::new(BLINK_ANIMATION, vec![10, 11, 12]);
        assert_eq!(a.advance(), 12);
        assert!(a.state >= 16 && a.state < 32);
        seen.insert(a.state);
    }
    assert!(seen.len() > 1);
}

#[test]
fn advance_with_uses_the_given_draw() {
    let mut a = Animation::new(TALK_ANIMATION, vec![0, 1, 2]);
    assert_eq!(a.advance_with(5), 1);
    assert_eq!(a.state, 5);
    assert_eq!(a.advance_with(9), 2);
    assert_eq!(a.state, 2);
    assert_eq!(a.advance_with(9), 1);
    assert_eq!(a.state, 1);
    assert_eq!(a.advance_with(9), 0);
    assert_eq!(a.state, 0);
}

#[test]
fn transitions_start_and_end_by_name() {
    let (mut t, a) = animation_bundle(
        (AnimationDefinition::Simple, vec![1, 2]),
        vec![
            ("talk".to_string(), TALK_ANIMATION, vec![3, 4, 5]),
            ("talk".to_string(), AnimationDefinition::Simple, vec![6]),
        ],
    );
    assert_eq!(a.frames, vec![1, 2]);
    assert!(t.current.is_none());
    assert!(t.start(&"cry".to_string()).is_none());
    let s = t.start(&"talk".to_string()).unwrap();
    assert_eq!(s.definition, TALK_ANIMATION);
    assert_eq!(s.frames, vec![3, 4, 5]);
    assert_eq!(s.state, 0);
    assert_eq!(t.current.as_deref(), Some("talk"));
    assert!(t.start(&"talk".to_string()).is_none());
    assert!(t.end(&"cry".to_string()).is_none());
    let d = t.end(&"talk".to_string()).unwrap();
    assert_eq!(d.frames, vec![1, 2]);
    assert!(t.current.is_none());
    assert!(t.end(&"talk".to_string()).is_none());
}

#[test]
fn progression_table_gives_frame_and_state() {
    let table = AnimationDefinition::Progression(vec![2, 0, 1]);
    assert_eq!(step_frame(&table, 0, 3, 0), (2, 2));
    assert_eq!(step_frame(&table, 2, 3, 0), (1, 1));
    let mut a = Animation::new(table, vec![40, 41, 42]);
    assert_eq!(a.advance(), 42);
    assert_eq!(a.advance(), 41);
    assert_eq!(a.advance(), 40);
    assert_eq!(a.advance(), 42);
}

#[test]
fn dual_state_table_gives_frame_and_next_state() {
    let table = AnimationDefinition::WithState(vec![(1, 2), (0, 0), (2, 1)]);
    assert_eq!(step_frame(&table, 0, 3, 0), (1, 2));
    let mut a = Animation::new(table, vec![7, 8, 9]);
    assert_eq!(a.advance(), 8);
    assert_eq!(a.state, 2);
    assert_eq!(a.advance(), 9);
    assert_eq!(a.state, 1);
    assert_eq!(a.advance(), 7);
    assert_eq!(a.state, 0);
}

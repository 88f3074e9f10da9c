use seance::{
    Channel, ClearQuestionEvent, Concept, Effect, GhostInteractionEvent, Line, QuestionDisplay,
    SetQuestionEvent, World,
};

const SEC: u64 = 1_000_000_000;

fn concept(world: &mut World, description: &str, parents: Vec<Vec<usize>>) -> usize {
    world.spawn_concept(Concept { description: description.to_string(), parents })
}

fn reach(target: usize) -> GhostInteractionEvent {
    GhostInteractionEvent { source: 0, target }
}

fn speakers(world: &World) -> usize {
    world.entities.iter().filter(|e| e.speaking.is_some()).count()
}

#[test]
fn nothing_is_said_before_the_clue_is_found() {
    let mut world = World::new();
    let youth = concept(&mut world, "youth", vec![]);
    let mut l1 = Line::default();
    l1.requires_concepts = vec![youth];
    let l1 = world.spawn_line(l1);
    let chair = world.spawn_evoker(youth);

    let effects = world.tick(&vec![], SEC);
    assert!(effects.is_empty());
    assert_eq!(world.speaking_line(), None);

    assert_eq!(world.handle_interactions(&vec![reach(chair)], 2 * SEC), Some(0));
    assert!(world.is_evoked(youth));
    assert_eq!(world.evoked_at(youth), Some(2 * SEC));
    assert_eq!(world.join_concepts(2 * SEC), None);
    world.progress_dialogue(2 * SEC);
    assert_eq!(world.speaking_line(), Some(l1));
    assert_eq!(world.spoken_times(l1), vec![2 * SEC]);
}

#[test]
fn tick_evokes_then_speaks() {
    let mut world = World::new();
    let youth = concept(&mut world, "youth", vec![]);
    let mut l1 = Line::default();
    l1.requires_concepts = vec![youth];
    let l1 = world.spawn_line(l1);
    let chair = world.spawn_evoker(youth);
    world.tick(&vec![reach(chair)], SEC);
    assert_eq!(world.speaking_line(), Some(l1));
    assert_eq!(world.spoken_times(l1), vec![SEC]);
}

#[test]
fn line_ends_after_its_duration_and_nothing_starts_that_tick() {
    let mut world = World::new();
    let mut l1 = Line::default();
    l1.priority = 1;
    l1.animations = vec!["talk".to_string()];
    l1.ends_animations = vec!["frown".to_string()];
    l1.clear_question = true;
    let l1 = world.spawn_line(l1);
    let l2 = world.spawn_line(Line::default());

    world.progress_dialogue(0);
    assert_eq!(world.speaking_line(), Some(l1));

    let effects = world.progress_dialogue(3 * SEC);
    assert!(effects.is_empty());
    assert_eq!(world.speaking_line(), Some(l1));

    let effects = world.progress_dialogue(4 * SEC);
    assert_eq!(effects.len(), 3);
    assert!(matches!(&effects[0], Effect::AnimationEnd(a) if a.0 == "talk"));
    assert!(matches!(&effects[1], Effect::AnimationEnd(a) if a.0 == "frown"));
    assert!(matches!(&effects[2], Effect::ClearQuestion(_)));
    assert_eq!(world.speaking_line(), None);
    assert_eq!(speakers(&world), 0);

    world.progress_dialogue(4 * SEC + 1);
    assert_eq!(world.speaking_line(), Some(l2));
    assert_eq!(world.spoken_times(l1), vec![0]);
}

#[test]
fn higher_priority_wins() {
    let mut world = World::new();
    let mut high = Line::default();
    high.priority = 10;
    let high = world.spawn_line(high);
    let mut low = Line::default();
    low.priority = 5;
    let _low = world.spawn_line(low);
    assert_eq!(world.choose_line(0), Some(high));
    world.progress_dialogue(0);
    assert_eq!(world.speaking_line(), Some(high));
}

#[test]
fn equal_priority_picks_the_later_line_every_time() {
    for _ in 0..3 {
        let mut world = World::new();
        let _a = world.spawn_line(Line::default());
        let b = world.spawn_line(Line::default());
        assert_eq!(world.choose_line(0), Some(b));
    }
}

#[test]
fn response_window_is_half_the_responding_line() {
    let mut world = World::new();
    let youth = concept(&mut world, "youth", vec![]);
    let mut l0 = Line::default();
    l0.groups = vec![youth];
    l0.duration = SEC / 2;
    let l0 = world.spawn_line(l0);
    let mut l2 = Line::default();
    l2.responds_to_concepts = vec![youth];
    l2.duration = 4 * SEC;
    let l2 = world.spawn_line(l2);
    let chair = world.spawn_evoker(youth);

    world.progress_dialogue(SEC);
    assert_eq!(world.speaking_line(), Some(l0));
    assert_eq!(world.spoken_times(youth), vec![SEC]);
    world.handle_interactions(&vec![reach(chair)], SEC);
    world.progress_dialogue(SEC + SEC / 2 + 1);
    assert_eq!(world.speaking_line(), None);

    assert_eq!(world.choose_line(2 * SEC), Some(l2));
    assert_eq!(world.choose_line(3 * SEC), None);
    assert_eq!(world.choose_line(4 * SEC), None);
}

#[test]
fn response_needs_the_concept_active() {
    let mut world = World::new();
    let youth = concept(&mut world, "youth", vec![]);
    let mut l0 = Line::default();
    l0.groups = vec![youth];
    world.spawn_line(l0);
    let mut l2 = Line::default();
    l2.responds_to_concepts = vec![youth];
    l2.duration = 4 * SEC;
    world.spawn_line(l2);
    world.progress_dialogue(SEC);
    world.progress_dialogue(5 * SEC);
    assert_eq!(world.choose_line(5 * SEC), None);
}

#[test]
fn clearing_target_deactivates_all_concepts() {
    let mut world = World::new();
    let a = concept(&mut world, "a", vec![]);
    let b = concept(&mut world, "b", vec![]);
    let ea = world.spawn_evoker(a);
    let eb = world.spawn_evoker(b);
    let broom = world.spawn_clearer();
    world.handle_interactions(&vec![reach(ea)], SEC);
    world.handle_interactions(&vec![reach(eb)], SEC);
    assert!(world.is_evoked(a) && world.is_evoked(b));
    assert_eq!(world.handle_interactions(&vec![reach(broom)], 2 * SEC), Some(0));
    assert!(!world.is_evoked(a));
    assert!(!world.is_evoked(b));
}

#[test]
fn clearing_nothing_changes_nothing() {
    let mut world = World::new();
    let a = concept(&mut world, "a", vec![]);
    let broom = world.spawn_clearer();
    assert!(world.handle_interaction(reach(broom), SEC));
    assert!(!world.is_evoked(a));
    world.clear_concepts();
    assert!(!world.is_evoked(a));
    assert_eq!(world.entities.len(), 2);
}

#[test]
fn only_the_first_reacting_interaction_counts() {
    let mut world = World::new();
    let a = concept(&mut world, "a", vec![]);
    let b = concept(&mut world, "b", vec![]);
    let plain = world.spawn_group();
    let ea = world.spawn_evoker(a);
    let eb = world.spawn_evoker(b);
    let r = world.handle_interactions(&vec![reach(plain), reach(ea), reach(eb)], SEC);
    assert_eq!(r, Some(1));
    assert!(world.is_evoked(a));
    assert!(!world.is_evoked(b));
    assert_eq!(world.handle_interactions(&vec![reach(plain), reach(99)], SEC), None);
}

#[test]
fn join_derives_the_compound_concept() {
    let mut world = World::new();
    let a = concept(&mut world, "a", vec![]);
    let b = concept(&mut world, "b", vec![]);
    let p = concept(&mut world, "p", vec![vec![a, b]]);
    let ea = world.spawn_evoker(a);
    let eb = world.spawn_evoker(b);
    world.handle_interactions(&vec![reach(ea)], SEC);
    assert_eq!(world.join_concepts(SEC), None);
    world.handle_interactions(&vec![reach(eb)], 2 * SEC);
    assert_eq!(world.join_concepts(3 * SEC), Some((p, 0)));
    assert_eq!(world.evoked_at(p), Some(3 * SEC));
    assert!(!world.is_evoked(a));
    assert!(!world.is_evoked(b));
    assert_eq!(world.join_concepts(4 * SEC), None);
}

#[test]
fn join_prefers_the_greatest_time_list() {
    let mut world = World::new();
    let a = concept(&mut world, "a", vec![]);
    let b = concept(&mut world, "b", vec![]);
    let c = concept(&mut world, "c", vec![]);
    let p = concept(&mut world, "p", vec![vec![a, c]]);
    let q = concept(&mut world, "q", vec![vec![b, c]]);
    let ea = world.spawn_evoker(a);
    let eb = world.spawn_evoker(b);
    let ec = world.spawn_evoker(c);
    world.handle_interactions(&vec![reach(ea)], SEC);
    world.handle_interactions(&vec![reach(eb)], 2 * SEC);
    world.handle_interactions(&vec![reach(ec)], 3 * SEC);
    // [2, 3] > [1, 3]: q wins, p waits
    assert_eq!(world.join_concepts(4 * SEC), Some((q, 0)));
    assert!(world.is_evoked(a));
    assert!(!world.is_evoked(b));
    assert!(!world.is_evoked(c));
    assert!(!world.is_evoked(p));
}

#[test]
fn join_compares_times_earliest_first() {
    let mut world = World::new();
    let a = concept(&mut world, "a", vec![]);
    let b = concept(&mut world, "b", vec![]);
    let c = concept(&mut world, "c", vec![]);
    let d = concept(&mut world, "d", vec![]);
    let p1 = concept(&mut world, "p1", vec![vec![b, a]]);
    let p2 = concept(&mut world, "p2", vec![vec![c, d]]);
    let ea = world.spawn_evoker(a);
    let eb = world.spawn_evoker(b);
    let ec = world.spawn_evoker(c);
    let ed = world.spawn_evoker(d);
    world.handle_interactions(&vec![reach(ea)], SEC);
    world.handle_interactions(&vec![reach(ec)], 5 * SEC);
    world.handle_interactions(&vec![reach(ed)], 6 * SEC);
    world.handle_interactions(&vec![reach(eb)], 10 * SEC);
    // [1, 10] < [5, 6]: the set whose earliest member came latest wins
    assert_eq!(world.join_concepts(11 * SEC), Some((p2, 0)));
    assert!(world.is_evoked(a) && world.is_evoked(b));
    assert!(!world.is_evoked(c) && !world.is_evoked(d));
    assert!(!world.is_evoked(p1));
    assert_eq!(world.join_concepts(12 * SEC), Some((p1, 0)));
}

#[test]
fn join_tie_goes_to_the_later_candidate() {
    let mut world = World::new();
    let a = concept(&mut world, "a", vec![]);
    let p = concept(&mut world, "p", vec![vec![a]]);
    let q = concept(&mut world, "q", vec![vec![a]]);
    let ea = world.spawn_evoker(a);
    world.handle_interactions(&vec![reach(ea)], SEC);
    assert_eq!(world.join_concepts(2 * SEC), Some((q, 0)));
    assert!(!world.is_evoked(p));
}

#[test]
fn non_repeatable_line_is_said_once() {
    let mut world = World::new();
    let mut l = Line::default();
    l.duration = SEC;
    let l = world.spawn_line(l);
    let mut t = 0;
    for _ in 0..20 {
        world.tick(&vec![], t);
        t += SEC / 3;
    }
    assert_eq!(world.spoken_times(l), vec![0]);
    assert_eq!(world.choose_line(t), None);
}

#[test]
fn repeatable_line_comes_back() {
    let mut world = World::new();
    let mut l = Line::default();
    l.duration = SEC;
    l.repeatable = true;
    let l = world.spawn_line(l);
    world.tick(&vec![], 0);
    world.tick(&vec![], 2 * SEC);
    world.tick(&vec![], 3 * SEC);
    assert_eq!(world.spoken_times(l), vec![0, 3 * SEC]);
}

#[test]
fn one_speaker_and_ordered_histories_throughout() {
    let mut world = World::new();
    let youth = concept(&mut world, "youth", vec![]);
    let group = world.spawn_group();
    for p in 0..4 {
        let mut l = Line::default();
        l.priority = p;
        l.repeatable = true;
        l.duration = SEC;
        l.groups = vec![group, youth];
        world.spawn_line(l);
    }
    let chair = world.spawn_evoker(youth);
    let mut t = 0;
    for k in 0..30 {
        let events = if k % 7 == 0 { vec![reach(chair)] } else { vec![] };
        world.tick(&events, t);
        assert!(speakers(&world) <= 1);
        for id in 0..world.entities.len() {
            let h = world.spoken_times(id);
            assert!(h.windows(2).all(|w| w[0] <= w[1]));
        }
        t += SEC / 2;
    }
    assert!(world.spoken_times(group).len() >= 2);
}

#[test]
fn starting_a_line_emits_effects_in_order() {
    let mut world = World::new();
    let a = concept(&mut world, "a", vec![]);
    let b = concept(&mut world, "b", vec![]);
    let group = world.spawn_group();
    let mut l = Line::default();
    l.audio = Some("voice.ogg".to_string());
    l.music = Some("theme.ogg".to_string());
    l.stop_audio = true;
    l.stop_music = true;
    l.animations = vec!["talk".to_string()];
    l.starts_animations = vec!["wave".to_string()];
    l.question = Some("Who was she?".to_string());
    l.groups = vec![group, group];
    l.consumes_concepts = vec![a];
    let l = world.spawn_line(l);
    let ea = world.spawn_evoker(a);
    let eb = world.spawn_evoker(b);
    world.handle_interactions(&vec![reach(ea)], 0);
    world.handle_interactions(&vec![reach(eb)], 0);

    let effects = world.progress_dialogue(SEC);
    assert_eq!(effects.len(), 7);
    assert!(matches!(&effects[0], Effect::PlayAudio(p) if p.channel == Channel::Dialogue && p.clip == "voice.ogg"));
    assert!(matches!(&effects[1], Effect::PlayAudio(p) if p.channel == Channel::Music && p.clip == "theme.ogg"));
    assert!(matches!(&effects[2], Effect::StopAudio(s) if s.channel == Channel::Dialogue));
    assert!(matches!(&effects[3], Effect::StopAudio(s) if s.channel == Channel::Music));
    assert!(matches!(&effects[4], Effect::AnimationStart(x) if x.0 == "talk"));
    assert!(matches!(&effects[5], Effect::AnimationStart(x) if x.0 == "wave"));
    assert!(matches!(&effects[6], Effect::SetQuestion(q) if q.0 == "Who was she?"));
    assert_eq!(world.spoken_times(l), vec![SEC]);
    assert_eq!(world.spoken_times(group), vec![SEC]);
    assert!(!world.is_evoked(a));
    assert!(world.is_evoked(b));
}

#[test]
fn a_line_naming_itself_as_its_group_is_stamped_once() {
    let mut world = World::new();
    let group = world.spawn_group();
    let mut l = Line::default();
    l.groups = vec![group, 1, group];
    let l = world.spawn_line(l);
    assert_eq!(l, 1);
    world.progress_dialogue(SEC);
    assert_eq!(world.spoken_times(l), vec![SEC]);
    assert_eq!(world.spoken_times(group), vec![SEC]);
}

#[test]
fn consuming_all_concepts() {
    let mut world = World::new();
    let a = concept(&mut world, "a", vec![]);
    let b = concept(&mut world, "b", vec![]);
    let mut l = Line::default();
    l.requires_any_concept = true;
    l.consumes_all_concepts = true;
    world.spawn_line(l);
    let ea = world.spawn_evoker(a);
    let eb = world.spawn_evoker(b);
    assert_eq!(world.choose_line(0), None);
    world.handle_interactions(&vec![reach(ea)], 0);
    world.handle_interactions(&vec![reach(eb)], 0);
    world.progress_dialogue(0);
    assert!(!world.is_evoked(a));
    assert!(!world.is_evoked(b));
}

#[test]
fn spoken_requirements_and_conflicts() {
    let mut world = World::new();
    let first = world.spawn_line(Line::default());
    let mut after = Line::default();
    after.requires_spoken = vec![first];
    after.priority = 5;
    let after = world.spawn_line(after);
    let mut before = Line::default();
    before.conflicts_spoken = vec![first];
    before.priority = 1;
    let before = world.spawn_line(before);

    world.tick(&vec![], 0);
    assert_eq!(world.speaking_line(), Some(before));
    world.tick(&vec![], 4 * SEC);
    world.tick(&vec![], 4 * SEC);
    assert_eq!(world.speaking_line(), Some(first));
    world.tick(&vec![], 8 * SEC);
    world.tick(&vec![], 8 * SEC);
    assert_eq!(world.speaking_line(), Some(after));
    world.tick(&vec![], 12 * SEC);
    world.tick(&vec![], 12 * SEC);
    assert_eq!(world.speaking_line(), None);
    assert_eq!(world.spoken_times(before), vec![0]);
    assert_eq!(world.spoken_times(first), vec![4 * SEC]);
    assert_eq!(world.spoken_times(after), vec![8 * SEC]);
}

#[test]
fn any_concept_and_missing_ids() {
    let mut world = World::new();
    let a = concept(&mut world, "a", vec![]);
    assert!(!world.any_evoked());
    let mut l = Line::default();
    l.requires_concepts = vec![99];
    world.spawn_line(l);
    let ea = world.spawn_evoker(a);
    world.handle_interactions(&vec![reach(ea)], 0);
    assert!(world.any_evoked());
    assert_eq!(world.choose_line(0), None);
    assert!(!world.is_evoked(99));
    assert_eq!(world.evoked_at(99), None);
    assert!(world.spoken_times(99).is_empty());
}

#[test]
fn default_line_values() {
    let l = Line::default();
    assert_eq!(l.text, "");
    assert_eq!(l.priority, 0);
    assert_eq!(l.duration, 3 * SEC);
    assert!(!l.repeatable);
    assert!(l.requires_concepts.is_empty());
    assert!(l.audio.is_none() && l.music.is_none() && l.question.is_none());
}

#[test]
fn question_panel_follows_questions_and_answers() {
    let mut world = World::new();
    let a = concept(&mut world, "Jewellery Box", vec![]);
    let ea = world.spawn_evoker(a);
    let broom = world.spawn_clearer();
    let mut panel = QuestionDisplay::new();

    panel.update(&vec![], &vec![], &vec![reach(ea)], &world);
    assert!(panel.sections.is_empty());

    panel.update(&vec![SetQuestionEvent("Who?".to_string())], &vec![], &vec![reach(ea), reach(ea)], &world);
    assert_eq!(panel.sections, vec!["Who?".to_string(), "Jewellery Box".to_string(), "Jewellery Box".to_string()]);

    panel.update(&vec![], &vec![], &vec![reach(broom), reach(ea)], &world);
    assert_eq!(panel.sections, vec!["Who?".to_string()]);

    panel.update(&vec![SetQuestionEvent("Why?".to_string())], &vec![ClearQuestionEvent], &vec![reach(ea)], &world);
    assert!(panel.sections.is_empty());
}

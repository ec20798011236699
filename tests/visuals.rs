use avis::visuals::{VisualAction, Visuals};

#[test]
fn visuals_parse_by_name() {
    assert_eq!("WordCloud".parse::<Visuals>(), Ok(Visuals::WordCloud));
    assert_eq!("wordcloud".parse::<Visuals>(), Err(()));
    assert_eq!(Visuals::from_name(""), Err(()));
    assert_eq!(Visuals::from_name("WordClouds"), Err(()));
}

#[test]
fn default_visual_is_word_cloud() {
    assert_eq!(Visuals::default(), Visuals::WordCloud);
}

#[test]
fn visual_action_carries_its_word() {
    let VisualAction::AddWord(w) = VisualAction::AddWord("hello".to_string()).clone();
    assert_eq!(w, "hello");
}

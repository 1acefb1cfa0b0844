use coolttviz::label::Label;
use coolttviz::messages;
use coolttviz::rat::Rat;

fn axes(names: &[&str]) -> Vec<String> {
    names.iter().map(|s| s.to_string()).collect()
}

#[test]
fn named_axes_are_laid_out_in_axis_order() {
    let msg = messages::Label {
        position: vec![
            ("k".to_string(), Rat::from_int(5)),
            ("i".to_string(), Rat::from_int(2)),
        ],
        txt: "origin of k".to_string(),
    };
    let lbl = Label::new(&axes(&["i", "j", "k"]), &msg);
    assert_eq!(lbl.txt, "origin of k");
    assert_eq!(lbl.position.len(), 3);
    assert!(lbl.position[0].eqv(&Rat::from_int(2)));
    assert!(lbl.position[1].eqv(&Rat::from_int(0)));
    assert!(lbl.position[2].eqv(&Rat::from_int(5)));
}

#[test]
fn unnamed_axes_default_to_zero() {
    let msg = messages::Label { position: vec![], txt: "o".to_string() };
    let lbl = Label::new(&axes(&["i", "j"]), &msg);
    assert_eq!(lbl.position.len(), 2);
    assert_eq!((lbl.position[0].num(), lbl.position[0].den()), (0, 1));
    assert_eq!((lbl.position[1].num(), lbl.position[1].den()), (0, 1));
}

#[test]
fn first_matching_pair_wins() {
    let msg = messages::Label {
        position: vec![
            ("i".to_string(), Rat::from_int(1)),
            ("i".to_string(), Rat::from_int(9)),
        ],
        txt: "t".to_string(),
    };
    let lbl = Label::new(&axes(&["i"]), &msg);
    assert!(lbl.position[0].eqv(&Rat::from_int(1)));
}

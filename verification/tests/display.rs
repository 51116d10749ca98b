use wikigraph_model::display::{shows_link, shows_object, Nineslice, ObjectActivity, Third};

fn all_slices() -> Vec<Nineslice> {
    let thirds = [Third::First, Third::Second, Third::Third];
    let mut v = Vec::new();
    for x in thirds {
        for y in thirds {
            v.push(Nineslice { x, y });
        }
    }
    v
}

#[test]
fn center_connects_to_everything() {
    for s in all_slices() {
        assert!(Nineslice::center().may_connect_to(s));
        assert!(s.may_connect_to(Nineslice::center()));
    }
}

#[test]
fn may_connect_to_is_symmetric() {
    for a in all_slices() {
        for b in all_slices() {
            assert_eq!(a.may_connect_to(b), b.may_connect_to(a));
        }
    }
}

#[test]
fn slices_sharing_a_row_or_column_do_not_connect() {
    let a = Nineslice { x: Third::First, y: Third::First };
    let b = Nineslice { x: Third::First, y: Third::Third };
    let c = Nineslice { x: Third::Third, y: Third::Third };
    assert!(!a.may_connect_to(b));
    assert!(a.may_connect_to(c));
    assert!(!a.may_connect_to(a));
}

#[test]
fn corner_positions_give_the_top_left_regions() {
    assert_eq!(Nineslice::of_corner(true, true), Nineslice { x: Third::First, y: Third::First });
    assert_eq!(Nineslice::of_corner(true, false), Nineslice { x: Third::First, y: Third::Second });
    assert_eq!(Nineslice::of_corner(false, true), Nineslice { x: Third::Second, y: Third::First });
    assert_eq!(Nineslice::of_corner(false, false), Nineslice::center());
}

#[test]
fn objects_are_drawn_in_the_middle_unless_hidden() {
    let mid = Nineslice::center();
    let corner = Nineslice::of_corner(true, true);
    assert!(shows_object(ObjectActivity::Active, mid));
    assert!(shows_object(ObjectActivity::DeEmphasized, mid));
    assert!(!shows_object(ObjectActivity::Hidden, mid));
    assert!(!shows_object(ObjectActivity::Active, corner));
}

#[test]
fn links_are_drawn_between_active_connectable_ends() {
    let mid = Nineslice::center();
    let tl = Nineslice::of_corner(true, true);
    let left = Nineslice::of_corner(true, false);
    let top = Nineslice::of_corner(false, true);
    assert!(shows_link(ObjectActivity::Active, ObjectActivity::Active, mid, mid));
    assert!(shows_link(ObjectActivity::Active, ObjectActivity::Active, tl, mid));
    assert!(shows_link(ObjectActivity::Active, ObjectActivity::Active, left, top));
    assert!(!shows_link(ObjectActivity::Active, ObjectActivity::Active, tl, left));
    assert!(!shows_link(ObjectActivity::Active, ObjectActivity::DeEmphasized, mid, mid));
    assert!(!shows_link(ObjectActivity::Hidden, ObjectActivity::Active, mid, mid));
}

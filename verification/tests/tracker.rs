use pixel_widgets::tracker::ManagedState;

#[test]
fn state_survives_a_rebuild() {
    let mut state: ManagedState<u32> = ManagedState::default();
    {
        let mut t = state.tracker();
        let s = t.begin(1, || 10);
        assert_eq!(*s, 10);
        *s = 11;
        t.end();
        t.finish();
    }
    {
        let mut t = state.tracker();
        let s = t.begin(1, || 99);
        assert_eq!(*s, 11);
        t.end();
        t.finish();
    }
}

#[test]
fn nested_states_survive_a_rebuild() {
    let mut state: ManagedState<&'static str> = ManagedState::default();
    {
        let mut t = state.tracker();
        *t.begin(1, || "outer") = "outer!";
        *t.begin(2, || "inner") = "inner!";
        t.end();
        t.end();
        t.finish();
    }
    {
        let mut t = state.tracker();
        assert_eq!(*t.begin(1, || "new"), "outer!");
        assert_eq!(*t.begin(2, || "new"), "inner!");
        t.end();
        t.end();
        t.finish();
    }
}

#[test]
fn replaced_child_loses_its_state() {
    let mut state: ManagedState<u32> = ManagedState::default();
    {
        let mut t = state.tracker();
        t.begin(1, || 1);
        t.begin(2, || 2);
        t.end();
        t.end();
        t.finish();
    }
    {
        let mut t = state.tracker();
        assert_eq!(*t.begin(1, || 100), 1);
        assert_eq!(*t.begin(3, || 3), 3);
        t.end();
        t.end();
        t.finish();
    }
    {
        let mut t = state.tracker();
        assert_eq!(*t.begin(1, || 100), 1);
        assert_eq!(*t.begin(2, || 200), 200);
        t.end();
        t.end();
        t.finish();
    }
}

#[test]
fn skipped_sibling_is_dropped() {
    let mut state: ManagedState<u32> = ManagedState::default();
    {
        let mut t = state.tracker();
        t.begin(1, || 1);
        t.end();
        t.begin(2, || 2);
        t.end();
        t.finish();
    }
    {
        let mut t = state.tracker();
        assert_eq!(*t.begin(2, || 20), 2);
        t.end();
        t.finish();
    }
    {
        let mut t = state.tracker();
        assert_eq!(*t.begin(1, || 10), 10);
        t.end();
        // the state of widget 2 now lies before the cursor, where the search does not look
        assert_eq!(*t.begin(2, || 20), 20);
        t.end();
        t.finish();
    }
}

#[test]
fn finish_drops_states_not_visited() {
    let mut state: ManagedState<u32> = ManagedState::default();
    {
        let mut t = state.tracker();
        t.begin(1, || 1);
        t.end();
        t.begin(2, || 2);
        t.end();
        t.finish();
    }
    {
        let mut t = state.tracker();
        assert_eq!(*t.begin(1, || 10), 1);
        t.end();
        t.finish();
    }
    {
        let mut t = state.tracker();
        assert_eq!(*t.begin(1, || 10), 1);
        t.end();
        assert_eq!(*t.begin(2, || 20), 20);
        t.end();
        t.finish();
    }
}

#[test]
fn unused_session_clears_every_state() {
    let mut state: ManagedState<u32> = ManagedState::default();
    {
        let mut t = state.tracker();
        t.begin(1, || 1);
        t.end();
        t.finish();
    }
    {
        let mut t = state.tracker();
        t.finish();
    }
    let mut t = state.tracker();
    assert_eq!(*t.begin(1, || 9), 9);
    t.end();
    t.finish();
}

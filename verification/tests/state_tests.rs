use todo_store::state::AppState;

#[test]
fn add_item_trims_and_assigns_id() {
    let mut st = AppState::new();
    st.set_input_buffer(String::from("  buy milk  "));
    st.add_item();
    assert_eq!(st.pending.len(), 1);
    assert_eq!(st.pending[0].value, "buy milk");
    assert_eq!(st.pending[0].id, 0);
    assert_eq!(st.input_buffer, "");
    assert_eq!(st.completed.len(), 0);
}

#[test]
fn add_item_empty_buffer_is_a_no_op() {
    let mut st = AppState::new();
    st.add_item();
    assert_eq!(st.pending.len(), 0);
    assert_eq!(st.input_buffer, "");

    st.set_input_buffer(String::from(" \t\n\r "));
    st.add_item();
    assert_eq!(st.pending.len(), 0);
    assert_eq!(st.input_buffer, " \t\n\r ");
    assert_eq!(st.completed.len(), 0);
}

#[test]
fn scenario_add_complete_remove() {
    let mut st = AppState::new();
    st.set_input_buffer(String::from("buy milk"));
    st.add_item();
    assert_eq!(st.pending.len(), 1);
    assert_eq!(st.pending[0].value, "buy milk");
    assert_eq!(st.pending[0].id, 0);

    st.set_input_buffer(String::from("walk dog"));
    st.add_item();
    assert_eq!(st.pending.len(), 2);
    assert_eq!(st.pending[0].value, "buy milk");
    assert_eq!(st.pending[0].id, 0);
    assert_eq!(st.pending[1].value, "walk dog");
    assert_eq!(st.pending[1].id, 1);

    st.complete_item(0);
    assert_eq!(st.pending.len(), 1);
    assert_eq!(st.pending[0].value, "walk dog");
    assert_eq!(st.pending[0].id, 1);
    assert_eq!(st.completed.len(), 1);
    assert_eq!(st.completed[0].value, "buy milk");
    assert_eq!(st.completed[0].id, 0);

    st.remove_from_completed(0);
    assert_eq!(st.completed.len(), 0);
    assert_eq!(st.pending.len(), 1);
}

#[test]
fn complete_item_appends_to_tail_and_keeps_order() {
    let mut st = AppState::new();
    for text in ["one", "two", "three"] {
        st.set_input_buffer(String::from(text));
        st.add_item();
    }
    st.set_input_buffer(String::from("done earlier"));
    st.complete_item(1);
    assert_eq!(st.pending.len(), 2);
    assert_eq!(st.pending[0].value, "one");
    assert_eq!(st.pending[1].value, "three");
    assert_eq!(st.completed.len(), 1);
    assert_eq!(st.completed[0].value, "two");
    assert_eq!(st.completed[0].id, 1);
    // the entry buffer is untouched by completion
    assert_eq!(st.input_buffer, "done earlier");
}

#[test]
fn complete_item_without_match_changes_nothing() {
    let mut st = AppState::new();
    st.set_input_buffer(String::from("only"));
    st.add_item();
    st.complete_item(42);
    assert_eq!(st.pending.len(), 1);
    assert_eq!(st.pending[0].value, "only");
    assert_eq!(st.completed.len(), 0);
}

#[test]
fn remove_from_pending_removes_every_match() {
    let mut st = AppState::new();
    st.set_input_buffer(String::from("alpha"));
    st.add_item(); // id 0
    st.set_input_buffer(String::from("beta"));
    st.add_item(); // id 1
    st.remove_from_pending(0);
    st.set_input_buffer(String::from("gamma"));
    st.add_item(); // length-based id: 1 again, colliding with beta
    assert_eq!(st.pending.len(), 2);
    assert_eq!(st.pending[0].id, 1);
    assert_eq!(st.pending[1].id, 1);

    st.remove_from_pending(1);
    assert_eq!(st.pending.len(), 0);
}

#[test]
fn complete_item_with_colliding_ids_moves_the_first_match() {
    let mut st = AppState::new();
    st.set_input_buffer(String::from("alpha"));
    st.add_item(); // id 0
    st.set_input_buffer(String::from("beta"));
    st.add_item(); // id 1
    st.remove_from_pending(0);
    st.set_input_buffer(String::from("gamma"));
    st.add_item(); // id 1 again
    st.complete_item(1);
    assert_eq!(st.pending.len(), 0);
    assert_eq!(st.completed.len(), 1);
    assert_eq!(st.completed[0].value, "beta");
}

#[test]
fn reopen_restores_membership_after_complete() {
    let mut st = AppState::new();
    for text in ["one", "two", "three"] {
        st.set_input_buffer(String::from(text));
        st.add_item();
    }
    st.complete_item(0);
    st.reopen_item(0);
    assert_eq!(st.completed.len(), 0);
    assert_eq!(st.pending.len(), 3);
    // the reopened item returns at the tail
    assert_eq!(st.pending[0].value, "two");
    assert_eq!(st.pending[1].value, "three");
    assert_eq!(st.pending[2].value, "one");
    assert_eq!(st.pending[2].id, 0);
}

#[test]
fn reopen_without_match_changes_nothing() {
    let mut st = AppState::new();
    st.set_input_buffer(String::from("only"));
    st.add_item();
    st.reopen_item(7);
    assert_eq!(st.pending.len(), 1);
    assert_eq!(st.completed.len(), 0);
}

#[test]
fn set_input_buffer_touches_nothing_else() {
    let mut st = AppState::new();
    st.set_input_buffer(String::from("task"));
    st.add_item();
    st.set_input_buffer(String::from("draft"));
    assert_eq!(st.input_buffer, "draft");
    assert_eq!(st.pending.len(), 1);
    assert_eq!(st.completed.len(), 0);
}

use czkawka::about_buttons::AboutButton;
use czkawka::notebook::{validate_notebook_data, NotebookMismatch};
use czkawka::taskbar_progress_dummy::tbp_flags::{
    TBPF_ERROR, TBPF_INDETERMINATE, TBPF_NOPROGRESS, TBPF_NORMAL, TBPF_PAUSED,
};
use czkawka::taskbar_progress_dummy::TaskbarProgress;

#[test]
fn about_buttons_lead_to_sites() {
    assert_eq!(AboutButton::Donation.site(), "https://github.com/sponsors/qarmin");
    assert_eq!(AboutButton::Repository.site(), "https://github.com/qarmin/czkawka");
    assert_eq!(
        AboutButton::Instruction.site(),
        "https://github.com/qarmin/czkawka/blob/master/instructions/Instruction.md"
    );
    assert_eq!(AboutButton::Translation.site(), "https://crwd.in/czkawka");
}

#[test]
fn a_site_that_does_not_open_is_reported() {
    assert_eq!(
        AboutButton::Donation.failure_message("no browser"),
        "Failed to open sponsor site: https://github.com/sponsors/qarmin, reason no browser"
    );
    assert_eq!(
        AboutButton::Translation.failure_message("x"),
        "Failed to open translation site: https://crwd.in/czkawka, reason x"
    );
    assert_eq!(AboutButton::Instruction.name(), "instruction");
    assert_eq!(AboutButton::Repository.name(), "repository");
}

#[test]
fn flags_have_their_numbers() {
    assert_eq!(TBPF_NOPROGRESS.value(), 0);
    assert_eq!(TBPF_INDETERMINATE.value(), 1);
    assert_eq!(TBPF_NORMAL.value(), 2);
    assert_eq!(TBPF_ERROR.value(), 4);
    assert_eq!(TBPF_PAUSED.value(), 8);
}

#[test]
fn progress_that_is_not_shown() {
    let mut progress = TaskbarProgress::new();
    progress.set_progress_state(TBPF_NORMAL);
    progress.set_progress_value(1, 2);
    progress.hide_progress();
    progress.show();
    progress.release();
}

#[test]
fn notebook_pages_stand_in_order() {
    assert_eq!(validate_notebook_data(&vec![0, 1, 2], &vec![Some(0), Some(1)]), Ok(()));
    assert_eq!(
        validate_notebook_data(&vec![1, 0], &vec![Some(0), None]),
        Err(NotebookMismatch::UnknownTreeView(1))
    );
    assert_eq!(
        validate_notebook_data(&vec![0, 2, 1], &vec![Some(1), Some(0)]),
        Err(NotebookMismatch::InfoOutOfOrder(1))
    );
    assert_eq!(
        validate_notebook_data(&vec![0, 1, 2], &vec![Some(0), Some(2)]),
        Err(NotebookMismatch::TreeViewOutOfOrder(1))
    );
}

//! The sites that the buttons of the about dialog lead to.

use vstd::prelude::*;
use vstd::string::*;

verus! {

/// A button of the about dialog.
#[derive(Clone, Copy, PartialEq, Eq, Structural, Debug)]
pub enum AboutButton {
    Donation,
    Instruction,
    Repository,
    Translation,
}

/// The site that a button leads to.
pub open spec fn site_of(button: AboutButton) -> Seq<char> {
    match button {
        AboutButton::Donation => "https://github.com/sponsors/qarmin"@,
        AboutButton::Instruction =>
            "https://github.com/qarmin/czkawka/blob/master/instructions/Instruction.md"@,
        AboutButton::Repository => "https://github.com/qarmin/czkawka"@,
        AboutButton::Translation => "https://crwd.in/czkawka"@,
    }
}

/// What the site of a button is called.
pub open spec fn site_name(button: AboutButton) -> Seq<char> {
    match button {
        AboutButton::Donation => "sponsor"@,
        AboutButton::Instruction => "instruction"@,
        AboutButton::Repository => "repository"@,
        AboutButton::Translation => "translation"@,
    }
}

/// The message for a site that could not be opened.
pub open spec fn failure_text(button: AboutButton, reason: Seq<char>) -> Seq<char> {
    "Failed to open "@ + site_name(button) + " site: "@ + site_of(button) + ", reason "@ + reason
}

impl AboutButton {
    /// The site that the button leads to.
    pub fn site(&self) -> (r: &'static str)
        ensures
            r@ == site_of(*self),
    {
        match self {
            AboutButton::Donation => "https://github.com/sponsors/qarmin",
            AboutButton::Instruction =>
                "https://github.com/qarmin/czkawka/blob/master/instructions/Instruction.md",
            AboutButton::Repository => "https://github.com/qarmin/czkawka",
            AboutButton::Translation => "https://crwd.in/czkawka",
        }
    }

    /// What the site is called.
    pub fn name(&self) -> (r: &'static str)
        ensures
            r@ == site_name(*self),
    {
        match self {
            AboutButton::Donation => "sponsor",
            AboutButton::Instruction => "instruction",
            AboutButton::Repository => "repository",
            AboutButton::Translation => "translation",
        }
    }

    /// The message for when the site could not be opened.
    pub fn failure_message(&self, reason: &str) -> (r: String)
        ensures
            r@ == failure_text(*self, reason@),
    {
        let mut r = String::new();
        r.append("Failed to open ");
        r.append(self.name());
        r.append(" site: ");
        r.append(self.site());
        r.append(", reason ");
        r.append(reason);
        assert(r@ =~= failure_text(*self, reason@));
        r
    }
}

/// The message for a site that could not be opened names the site, says where it is and gives the
/// reason, in this order.
pub proof fn law_failure_is_explained(button: AboutButton, reason: Seq<char>)
    ensures
        failure_text(button, reason).len() == "Failed to open "@.len() + " site: "@.len()
            + ", reason "@.len() + site_name(button).len() + site_of(button).len() + reason.len(),
        ({
            let start = "Failed to open "@ + site_name(button);
            &&& start.is_prefix_of(failure_text(button, reason))
            &&& failure_text(button, reason).skip(start.len() as int) == " site: "@ + site_of(
                button,
            ) + ", reason "@ + reason
        }),
{
    let start = "Failed to open "@ + site_name(button);
    let text = failure_text(button, reason);
    assert(start.is_prefix_of(text));
    assert(text.skip(start.len() as int) =~= " site: "@ + site_of(button) + ", reason "@ + reason);
}

/// Every button leads to a site of its own, by a secure protocol.
pub proof fn law_sites_differ(a: AboutButton, b: AboutButton)
    requires
        a != b,
    ensures
        site_of(a) != site_of(b),
        site_name(a) != site_name(b),
        "https://"@.is_prefix_of(site_of(a)),
{
    reveal_strlit("https://");
    reveal_strlit("https://github.com/sponsors/qarmin");
    reveal_strlit("https://github.com/qarmin/czkawka/blob/master/instructions/Instruction.md");
    reveal_strlit("https://github.com/qarmin/czkawka");
    reveal_strlit("https://crwd.in/czkawka");
    reveal_strlit("sponsor");
    reveal_strlit("instruction");
    reveal_strlit("repository");
    reveal_strlit("translation");
    assert(site_of(a).len() != site_of(b).len());
    assert(site_name(a)[0] != site_name(b)[0]);
}

} // verus!

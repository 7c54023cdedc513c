//! The session that navigates the layers of the active window's application, and what it shows
//! when no application is configured for that window.
use crate::execution::binds_in_order;
use crate::key::{plain_key, Key, Symbol};
use crate::navigation::{append_key_actions, keys_contain, SystemAction, ViewAction};
use crate::text::{str_to_string, string_push_str};
use vstd::prelude::*;

verus! {

/// The keys that retry a failed command: Return alone.
pub fn retry_keys() -> (r: Vec<Key>)
    ensures
        r@ == seq![plain_key(Symbol(0xff0d))],
{
    let mut r = Vec::new();
    r.push(Key::new(Symbol::return_key()));
    proof {
        assert(r@ =~= seq![plain_key(Symbol(0xff0d))]);
    }
    r
}

/// How a window is named in messages: its name, or `unknown` when it has none.
pub open spec fn window_label_text(window_name: Seq<char>) -> Seq<char> {
    if window_name.len() == 0 {
        "unknown"@
    } else {
        window_name
    }
}

/// How a window is named in messages.
pub fn window_label(window_name: &str) -> (r: String)
    ensures
        r@ == window_label_text(window_name@),
{
    if window_name.is_empty() {
        str_to_string("unknown")
    } else {
        str_to_string(window_name)
    }
}

/// The heading shown when no application is configured for the active window.
pub fn unconfigured_type() -> (r: &'static str)
    ensures
        r@ == "Application unconfigured"@,
{
    "Application unconfigured"
}

/// The details shown when no application is configured for the active window.
pub open spec fn unconfigured_details_text(window_name: Seq<char>) -> Seq<char> {
    "No matching configuration found for \""@ + window_label_text(window_name) + "\" application"@
}

/// The details shown when no application is configured for the active window.
pub fn unconfigured_details(window_name: &str) -> (r: String)
    ensures
        r@ == unconfigured_details_text(window_name@),
{
    let mut r = str_to_string("No matching configuration found for \"");
    let label = window_label(window_name);
    string_push_str(&mut r, label.as_str());
    string_push_str(&mut r, "\" application");
    r
}

/// The key bindings shown with the message: back keys and exit keys both leave it.
pub fn unconfigured_view_actions(keys_back: &[Key], keys_exit: &[Key]) -> (r: Vec<
    (Key, ViewAction),
>)
    ensures
        binds_in_order(
            r@,
            seq![(keys_back@, SystemAction::Unbranch), (keys_exit@, SystemAction::Exit)],
        ),
{
    let mut r: Vec<(Key, ViewAction)> = Vec::new();
    let ghost a0 = r@;
    append_key_actions(&mut r, keys_back, SystemAction::Unbranch);
    let ghost a1 = r@;
    append_key_actions(&mut r, keys_exit, SystemAction::Exit);
    proof {
        let lists = seq![(keys_back@, SystemAction::Unbranch), (keys_exit@, SystemAction::Exit)];
        let n1 = keys_back@.len() as int;
        let n2 = keys_exit@.len() as int;
        let rest1 = r@.skip(n1);
        let rest2 = rest1.skip(n2);
        assert(rest2 =~= Seq::<(Key, ViewAction)>::empty());
        assert(lists.drop_first().drop_first() =~= Seq::<(Seq<Key>, SystemAction)>::empty());
        assert(binds_in_order(rest2, lists.drop_first().drop_first()));
        assert forall|i: int| 0 <= i < n2 implies (#[trigger] rest1[i]).0 == keys_exit@[i]
            && crate::navigation::shows_system(SystemAction::Exit, rest1[i].1) by {
            assert(rest1[i] == r@[n1 + i]);
        }
        assert(lists.drop_first() =~= seq![(keys_exit@, SystemAction::Exit)]);
        assert(binds_in_order(rest1, lists.drop_first()));
        assert forall|i: int| 0 <= i < n1 implies (#[trigger] r@[i]).0 == keys_back@[i]
            && crate::navigation::shows_system(SystemAction::Unbranch, r@[i].1) by {
            assert(r@[i] == a1[i]);
            assert(a1[a0.len() + i] == a1[i]);
        }
    }
    r
}

/// Whether a press leaves the message: an exit key or a back key.
pub fn dismisses_unconfigured(press: &Key, keys_exit: &[Key], keys_back: &[Key]) -> (r: bool)
    ensures
        r == (keys_exit@.contains(*press) || keys_back@.contains(*press)),
{
    keys_contain(keys_exit, press) || keys_contain(keys_back, press)
}

} // verus!

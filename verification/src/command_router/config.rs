//! The `CONFIG` command and its sub-actions.
use vstd::prelude::*;

verus! {

#[derive(Debug, Clone, PartialEq, Eq)]
pub enum ConfigCommandAction {
    Get(String),
    Unrecognized,
}

pub enum ConfigCommandActionView {
    Get(Seq<char>),
    Unrecognized,
}

impl View for ConfigCommandAction {
    type V = ConfigCommandActionView;

    open spec fn view(&self) -> ConfigCommandActionView {
        match self {
            ConfigCommandAction::Get(s) => ConfigCommandActionView::Get(s@),
            ConfigCommandAction::Unrecognized => ConfigCommandActionView::Unrecognized,
        }
    }
}

#[derive(Debug, Clone, PartialEq, Eq)]
pub struct ConfigCommand {
    pub action: ConfigCommandAction,
}

impl View for ConfigCommand {
    type V = ConfigCommandActionView;

    open spec fn view(&self) -> ConfigCommandActionView {
        self.action@
    }
}

pub open spec fn strs_view(s: Seq<&str>) -> Seq<Seq<char>> {
    s.map_values(|x: &str| x@)
}

/// The action that the statements after `config` name; `None` where there
/// are too few statements for it.
pub open spec fn config_from_statements(st: Seq<Seq<char>>) -> Option<ConfigCommandActionView> {
    if st.len() == 0 {
        None
    } else if st[0] == "get"@ {
        if st.len() < 2 {
            None
        } else {
            Some(ConfigCommandActionView::Get(st[1]))
        }
    } else {
        Some(ConfigCommandActionView::Unrecognized)
    }
}

impl ConfigCommand {
    /// Reads `get <parameter>`; any other first statement is unrecognized.
    pub fn from_statements(statements: &[&str]) -> (r: Self)
        requires
            config_from_statements(strs_view(statements@)) is Some,
        ensures
            config_from_statements(strs_view(statements@)) == Some(r@),
    {
        assert(strs_view(statements@)[0] == statements@[0]@);
        if crate::text::str_eq(statements[0], "get") {
            assert(strs_view(statements@)[1] == statements@[1]@);
            ConfigCommand { action: ConfigCommandAction::Get(statements[1].to_owned()) }
        } else {
            ConfigCommand { action: ConfigCommandAction::Unrecognized }
        }
    }
}

} // verus!

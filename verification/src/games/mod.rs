//! Game implementations. Each game is a static module implementing
//! [`crate::game::Game`]; there is no plugin system.

pub mod breakthrough;
pub mod chess;
pub mod connect_k;
pub mod forward_chess;
pub mod grid;
pub mod othello;

use crate::text::{decimal, push_decimal};
use vstd::prelude::*;

verus! {

/// Typed, fully explicit game selection used in experiment configurations.
#[derive(Clone, Debug, PartialEq, Eq, Structural)]
pub enum GameSpec {
    ConnectK { width: u16, height: u16, k: u16, gravity: bool },
    Breakthrough { width: u16, height: u16, rows: u16 },
    Othello { width: u16, height: u16 },
    Chess {},
}

/// The label of a game selection.
pub open spec fn spec_label(spec: GameSpec) -> Seq<char> {
    match spec {
        GameSpec::ConnectK { width, height, k, gravity } => "connectk-"@ + decimal(width as nat) + "x"@
            + decimal(height as nat) + "k"@ + decimal(k as nat) + if gravity {
            "g"@
        } else {
            "f"@
        },
        GameSpec::Breakthrough { width, height, rows } => "breakthrough-"@ + decimal(width as nat)
            + "x"@ + decimal(height as nat) + "r"@ + decimal(rows as nat),
        GameSpec::Othello { width, height } => "othello-"@ + decimal(width as nat) + "x"@ + decimal(
            height as nat,
        ),
        GameSpec::Chess {  } => "chess"@,
    }
}

impl GameSpec {
    /// Short label used in run-directory names, such as
    /// `connectk-7x6k4g` or `breakthrough-5x5r1`.
    pub fn label(&self) -> (s: String)
        ensures
            s@ == spec_label(*self),
    {
        match self {
            GameSpec::ConnectK { width, height, k, gravity } => {
                let mut s = String::from_str("connectk-");
                push_decimal(&mut s, *width as u64);
                s.append("x");
                push_decimal(&mut s, *height as u64);
                s.append("k");
                push_decimal(&mut s, *k as u64);
                if *gravity {
                    s.append("g");
                } else {
                    s.append("f");
                }
                s
            },
            GameSpec::Breakthrough { width, height, rows } => {
                let mut s = String::from_str("breakthrough-");
                push_decimal(&mut s, *width as u64);
                s.append("x");
                push_decimal(&mut s, *height as u64);
                s.append("r");
                push_decimal(&mut s, *rows as u64);
                s
            },
            GameSpec::Othello { width, height } => {
                let mut s = String::from_str("othello-");
                push_decimal(&mut s, *width as u64);
                s.append("x");
                push_decimal(&mut s, *height as u64);
                s
            },
            GameSpec::Chess {  } => String::from_str("chess"),
        }
    }
}

} // verus!

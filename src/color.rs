//! ANSI colouring of prompt text.

use vstd::prelude::*;
use vstd::string::*;

verus! {

/// The escape sequence that turns the foreground red.
pub open spec fn red_start() -> Seq<char> {
    seq!['\u{1b}', '[', '3', '1', 'm']
}

/// The escape sequence that turns the foreground green.
pub open spec fn green_start() -> Seq<char> {
    seq!['\u{1b}', '[', '3', '2', 'm']
}

/// The escape sequence that restores the default colours.
pub open spec fn reset() -> Seq<char> {
    seq!['\u{1b}', '[', '0', 'm']
}

pub open spec fn red_text(s: Seq<char>) -> Seq<char> {
    red_start() + s + reset()
}

pub open spec fn green_text(s: Seq<char>) -> Seq<char> {
    green_start() + s + reset()
}

/// Text to be shown in red.
pub struct Red {
    text: String,
}

/// Text to be shown in green.
pub struct Green {
    text: String,
}

impl View for Red {
    type V = Seq<char>;

    closed spec fn view(&self) -> Seq<char> {
        self.text@
    }
}

impl View for Green {
    type V = Seq<char>;

    closed spec fn view(&self) -> Seq<char> {
        self.text@
    }
}

fn wrap(start: &str, text: &str) -> (r: String)
    ensures
        r@ == start@ + text@ + reset(),
{
    let mut r = String::from_str(start);
    r.append(text);
    r.append("\x1b[0m");
    proof {
        reveal_strlit("\x1b[0m");
        assert("\x1b[0m"@ =~= reset());
    }
    r
}

impl Red {
    /// The text between the escape sequences for red and for the default.
    pub fn to_string(&self) -> (r: String)
        ensures
            r@ == red_text(self@),
    {
        proof {
            reveal_strlit("\x1b[31m");
            assert("\x1b[31m"@ =~= red_start());
        }
        wrap("\x1b[31m", self.text.as_str())
    }
}

impl Green {
    /// The text between the escape sequences for green and for the default.
    pub fn to_string(&self) -> (r: String)
        ensures
            r@ == green_text(self@),
    {
        proof {
            reveal_strlit("\x1b[32m");
            assert("\x1b[32m"@ =~= green_start());
        }
        wrap("\x1b[32m", self.text.as_str())
    }
}

/// Text that can be coloured.
pub trait Color {
    /// The text as it is shown.
    spec fn shown(&self) -> Seq<char>;

    fn red(&self) -> (r: Red)
        ensures
            r@ == self.shown(),
    ;

    fn green(&self) -> (r: Green)
        ensures
            r@ == self.shown(),
    ;
}

impl Color for str {
    open spec fn shown(&self) -> Seq<char> {
        self@
    }

    fn red(&self) -> (r: Red) {
        Red { text: String::from_str(self) }
    }

    fn green(&self) -> (r: Green) {
        Green { text: String::from_str(self) }
    }
}

impl Color for String {
    open spec fn shown(&self) -> Seq<char> {
        self@
    }

    fn red(&self) -> (r: Red) {
        Red { text: self.clone() }
    }

    fn green(&self) -> (r: Green) {
        Green { text: self.clone() }
    }
}

} // verus!

use vstd::prelude::*;
use vstd::string::StrSliceExecFns;

verus! {

/// Anything a visual can do.
#[derive(Debug, Clone)]
pub enum VisualAction {
    AddWord(String),
}

/// The data visualizations that can be shown.
#[derive(Clone, Copy, Debug, PartialEq, Eq, Structural)]
pub enum Visuals {
    WordCloud,
}

/// Whether two strings hold the same characters.
pub fn same_text(a: &str, b: &str) -> (r: bool)
    ensures
        r == (a@ == b@),
{
    let n = a.unicode_len();
    if n != b.unicode_len() {
        return false;
    }
    let mut i: usize = 0;
    while i < n
        invariant
            n == a@.len(),
            n == b@.len(),
            i <= n,
            forall|j: int| 0 <= j < i ==> a@[j] == b@[j],
        decreases n - i,
    {
        if a.get_char(i) != b.get_char(i) {
            return false;
        }
        i = i + 1;
    }
    proof {
        assert(a@ =~= b@);
    }
    true
}

impl Visuals {
    /// The visual with the given name, or `Err(())` for an unknown name.
    pub fn from_name(text: &str) -> (r: Result<Visuals, ()>)
        ensures
            r == (if text@ == "WordCloud"@ {
                Ok::<Visuals, ()>(Visuals::WordCloud)
            } else {
                Err::<Visuals, ()>(())
            }),
    {
        if same_text(text, "WordCloud") {
            Ok(Visuals::WordCloud)
        } else {
            Err(())
        }
    }
}

impl Default for Visuals {
    fn default() -> (r: Visuals)
        ensures
            r == Visuals::WordCloud,
    {
        Visuals::WordCloud
    }
}

impl std::str::FromStr for Visuals {
    type Err = ();

    fn from_str(text: &str) -> Result<Visuals, ()> {
        Visuals::from_name(text)
    }
}

} // verus!

//! The preprocessor as mdbook knows it: its name and the renderers it serves.
use vstd::prelude::*;
use vstd::string::*;

verus! {

/// The `classy` preprocessor.
#[derive(Default)]
pub struct Classy;

impl Classy {
    pub fn new() -> (r: Classy) {
        Classy
    }

    /// The name under which mdbook knows the preprocessor.
    pub fn name(&self) -> (r: &'static str)
        ensures
            r@ == "classy"@,
    {
        "classy"
    }

    /// Whether the output of `renderer` can take the wrapped paragraphs: only
    /// the HTML renderer can.
    pub fn supports_renderer(&self, renderer: &str) -> (r: bool)
        ensures
            r == (renderer@ == "html"@),
    {
        proof {
            reveal_strlit("html");
        }
        let n = renderer.unicode_len();
        let r = n == 4 && renderer.get_char(0) == 'h' && renderer.get_char(1) == 't'
            && renderer.get_char(2) == 'm' && renderer.get_char(3) == 'l';
        proof {
            if n == 4 && !r {
                assert(renderer@ != "html"@) by {
                    if renderer@ == "html"@ {
                        assert(renderer@[0] == 'h' && renderer@[1] == 't' && renderer@[2] == 'm'
                            && renderer@[3] == 'l');
                    }
                }
            }
            if r {
                assert(renderer@ =~= "html"@);
            }
        }
        r
    }
}

} // verus!

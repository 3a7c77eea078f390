use vstd::prelude::*;

use crate::error::{Error, ErrorView};
use crate::path::strs;
use crate::render::{layout, layout_spec, text_result};
use crate::template::{default_layout_name, template_name, LayoutTemplate};
use crate::tree::Tree;

verus! {

/// The depth used when none is given.
pub const DEFAULT_DEPTH: usize = 3;

/// The options of one layout request, each of them optional.
pub struct LayoutOptions {
    pub layout: Option<String>,
    pub path: Option<String>,
    pub keys: Option<Vec<String>>,
    pub hide_key: bool,
    pub depth: Option<usize>,
}

/// A layout request with every option settled.
pub struct LayoutConfig {
    pub layout: String,
    pub path: String,
    pub keys: Vec<String>,
    pub hide_key: bool,
    pub depth: usize,
}

/// Whether `p` begins with the separator `/`.
pub open spec fn is_absolute(p: Seq<char>) -> bool {
    p.len() > 0 && p[0] == '/'
}

/// The layout name asked for, else the default one.
pub open spec fn layout_name_of(o: LayoutOptions) -> Seq<char> {
    match o.layout {
        Some(s) => s@,
        None => template_name(LayoutTemplate::Line),
    }
}

/// The start path asked for, else the root path `/`.
pub open spec fn path_of(o: LayoutOptions) -> Seq<char> {
    match o.path {
        Some(s) => s@,
        None => "/"@,
    }
}

/// The key filter asked for, else the empty one.
pub open spec fn keys_of(o: LayoutOptions) -> Seq<Seq<char>> {
    match o.keys {
        Some(k) => strs(k@),
        None => Seq::empty(),
    }
}

/// The depth asked for, else three levels.
pub open spec fn depth_of(o: LayoutOptions) -> usize {
    match o.depth {
        Some(d) => d,
        None => DEFAULT_DEPTH,
    }
}

/// Whether `p` begins with `/`.
pub fn starts_with_separator(p: &str) -> (r: bool)
    ensures
        r == is_absolute(p@),
{
    p.unicode_len() > 0 && p.get_char(0) == '/'
}

impl LayoutConfig {
    /// Settles each option, taking its default where it is absent. Fails
    /// where a start path is given that is not absolute.
    pub fn from_opt(layout_opt: LayoutOptions) -> (r: Result<LayoutConfig, Error>)
        ensures
            !is_absolute(path_of(layout_opt)) ==> (r matches Err(e) && e@ == ErrorView::NodePathMustBeAbsolute(
                path_of(layout_opt),
            )),
            is_absolute(path_of(layout_opt)) ==> (r matches Ok(c) && c.layout@ == layout_name_of(layout_opt)
                && c.path@ == path_of(layout_opt) && strs(c.keys@) == keys_of(layout_opt) && c.hide_key
                == layout_opt.hide_key && c.depth == depth_of(layout_opt)),
    {
        proof {
            reveal_strlit("/");
        }
        let ghost o = layout_opt;
        let layout = match layout_opt.layout {
            Some(layout) => layout,
            None => String::from_str(default_layout_name()),
        };
        let path = match layout_opt.path {
            Some(path) => {
                if starts_with_separator(path.as_str()) {
                    path
                } else {
                    return Err(Error::NodePathMustBeAbsolute(path));
                }
            },
            None => String::from_str("/"),
        };
        let keys = match layout_opt.keys {
            Some(keys) => keys,
            None => Vec::new(),
        };
        assert(strs(keys@) =~= keys_of(o));
        let hide_key = layout_opt.hide_key;
        let depth = match layout_opt.depth {
            Some(depth) => depth,
            None => DEFAULT_DEPTH,
        };
        Ok(LayoutConfig { layout, path, keys, hide_key, depth })
    }
}

impl LayoutOptions {
    /// Settles the options and renders the tree with them. A start path
    /// that is not absolute is refused first; after that the outcome is
    /// that of [`layout`] on the settled options.
    pub fn run(self, tree: &Tree) -> (r: Result<String, Error>)
        requires
            tree.wf(),
        ensures
            !is_absolute(path_of(self)) ==> text_result(r) == Err::<Seq<char>, ErrorView>(
                ErrorView::NodePathMustBeAbsolute(path_of(self)),
            ),
            is_absolute(path_of(self)) ==> text_result(r) == layout_spec(
                tree@,
                layout_name_of(self),
                path_of(self),
                depth_of(self) as nat,
                keys_of(self),
                self.hide_key,
            ),
    {
        let config = match LayoutConfig::from_opt(self) {
            Ok(c) => c,
            Err(e) => {
                return Err(e);
            },
        };
        layout(
            config.layout.as_str(),
            tree,
            config.path.as_str(),
            config.depth,
            &config.keys,
            config.hide_key,
        )
    }
}

} // verus!

use vstd::prelude::*;

verus! {

/// What a mod says about itself: its id and, optionally, a display name.
#[derive(Debug, Clone)]
pub struct ModMeta {
    id: String,
    display_name: Option<String>,
}

impl ModMeta {
    pub closed spec fn spec_id(&self) -> Seq<char> {
        self.id@
    }

    pub closed spec fn spec_display_name(&self) -> Option<Seq<char>> {
        match self.display_name {
            Some(n) => Some(n@),
            None => None,
        }
    }

    /// Meta for the mod with the given id, with no display name.
    pub fn new(id: String) -> (r: Self)
        ensures
            r.spec_id() == id@,
            r.spec_display_name() is None,
    {
        Self { id, display_name: None }
    }

    /// The same meta with the given display name.
    pub fn with_display_name(self, display_name: String) -> (r: Self)
        ensures
            r.spec_id() == self.spec_id(),
            r.spec_display_name() == Some(display_name@),
    {
        ModMeta { id: self.id, display_name: Some(display_name) }
    }

    pub fn id(&self) -> (r: &String)
        ensures
            r@ == self.spec_id(),
    {
        &self.id
    }

    pub fn display_name(&self) -> (r: &Option<String>)
        ensures
            match r {
                Some(n) => self.spec_display_name() == Some(n@),
                None => self.spec_display_name() is None,
            },
    {
        &self.display_name
    }
}

} // verus!

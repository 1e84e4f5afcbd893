use vstd::prelude::*;

verus! {

/// One entry of the link directory: a named target with a thumbnail, a free
/// text description and an unsigned sort key. All text fields are raw bytes.
pub struct Link {
    pub name: Vec<u8>,
    pub url: Vec<u8>,
    pub image: Vec<u8>,
    pub description: Vec<u8>,
    pub order: u32,
}

/// The mathematical model of a `Link`: each text field as a byte sequence.
pub ghost struct LinkModel {
    pub name: Seq<u8>,
    pub url: Seq<u8>,
    pub image: Seq<u8>,
    pub description: Seq<u8>,
    pub order: u32,
}

impl View for Link {
    type V = LinkModel;

    open spec fn view(&self) -> LinkModel {
        LinkModel {
            name: self.name@,
            url: self.url@,
            image: self.image@,
            description: self.description@,
            order: self.order,
        }
    }
}

impl Link {
    /// A deep copy whose model is known to equal this record's.
    pub fn duplicate(&self) -> (r: Link)
        ensures
            r@ == self@,
    {
        Link {
            name: self.name.clone(),
            url: self.url.clone(),
            image: self.image.clone(),
            description: self.description.clone(),
            order: self.order,
        }
    }
}

} // verus!

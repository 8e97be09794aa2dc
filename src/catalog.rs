use vstd::prelude::*;

verus! {

/// The text of an optional field, empty when it is absent.
pub open spec fn text_or_empty(o: Option<String>) -> Seq<char> {
    match o {
        Some(v) => v@,
        None => Seq::empty(),
    }
}

/// The number of an optional field, zero when it is absent.
pub open spec fn count_or_zero(o: Option<usize>) -> usize {
    match o {
        Some(v) => v,
        None => 0,
    }
}

/// The flag of an optional field, false when it is absent.
pub open spec fn flag_or_false(o: Option<bool>) -> bool {
    match o {
        Some(v) => v,
        None => false,
    }
}

fn text_of(o: &Option<String>) -> (r: &str)
    ensures
        r@ == text_or_empty(*o),
{
    match o {
        Some(v) => v.as_str(),
        None => {
            proof {
                reveal_strlit("");
            }
            ""
        },
    }
}

fn copy_text(o: &Option<String>) -> (r: Option<String>)
    ensures
        r == *o,
{
    match o {
        Some(v) => Some(v.clone()),
        None => None,
    }
}

/// A streaming protocol that a camera offers.
#[derive(Debug, Clone)]
pub struct Protocol {
    pub name: Option<String>,
    pub protocol_type: Option<String>,
    pub path: Option<String>,
    pub port: Option<usize>,
    pub width: Option<usize>,
    pub height: Option<usize>,
}

/// The protocol with every field absent.
pub open spec fn empty_protocol() -> Protocol {
    Protocol { name: None, protocol_type: None, path: None, port: None, width: None, height: None }
}

impl Default for Protocol {
    fn default() -> (r: Protocol)
        ensures
            r == empty_protocol(),
    {
        Protocol { name: None, protocol_type: None, path: None, port: None, width: None, height: None }
    }
}

fn copy_protocol(p: &Protocol) -> (r: Protocol)
    ensures
        r == *p,
{
    Protocol {
        name: copy_text(&p.name),
        protocol_type: copy_text(&p.protocol_type),
        path: copy_text(&p.path),
        port: p.port,
        width: p.width,
        height: p.height,
    }
}

impl Protocol {
    pub fn get_name(&self) -> (r: &str)
        ensures
            r@ == text_or_empty(self.name),
    {
        text_of(&self.name)
    }
    pub fn get_type(&self) -> (r: &str)
        ensures
            r@ == text_or_empty(self.protocol_type),
    {
        text_of(&self.protocol_type)
    }
    pub fn get_path(&self) -> (r: &str)
        ensures
            r@ == text_or_empty(self.path),
    {
        text_of(&self.path)
    }
    pub fn get_port(&self) -> (r: usize)
        ensures
            r == count_or_zero(self.port),
    {
        match self.port {
            Some(v) => v,
            None => 0,
        }
    }
    pub fn get_width(&self) -> (r: usize)
        ensures
            r == count_or_zero(self.width),
    {
        match self.width {
            Some(v) => v,
            None => 0,
        }
    }
    pub fn get_height(&self) -> (r: usize)
        ensures
            r == count_or_zero(self.height),
    {
        match self.height {
            Some(v) => v,
            None => 0,
        }
    }
}

/// A camera as the catalog describes it.
#[allow(non_snake_case)]
#[derive(Debug, Clone, Default)]
pub struct Camera {
    pub activeProtocol: Option<Protocol>,
    pub orgId: Option<String>,
    pub locationId: Option<String>,
    pub hubId: Option<String>,
    pub id: Option<String>,
    pub brand: Option<String>,
    pub name: Option<String>,
    pub model: Option<String>,
    pub status: Option<String>,
    pub record: Option<bool>,
    pub ipAddress: Option<String>,
    pub macAddress: Option<String>,
    pub serial: Option<String>,
    pub username: Option<String>,
    pub password: Option<String>,
    pub protocols: Option<Vec<Protocol>>,
    pub authenticate: Option<String>,
    pub url: Option<String>,
    pub is_ptz_relative: Option<bool>,
}

impl Camera {
    /// The active protocol, or one with every field absent.
    pub fn get_active_protocol(&self) -> (r: Protocol)
        ensures
            r == match self.activeProtocol {
                Some(p) => p,
                None => empty_protocol(),
            },
    {
        match &self.activeProtocol {
            Some(p) => copy_protocol(p),
            None => Protocol::default(),
        }
    }

    /// The organization key under which the catalog files the camera: its id.
    pub fn get_organization_id(&self) -> (r: &str)
        ensures
            r@ == text_or_empty(self.id),
    {
        text_of(&self.id)
    }

    pub fn get_location_id(&self) -> (r: &str)
        ensures
            r@ == text_or_empty(self.locationId),
    {
        text_of(&self.locationId)
    }

    pub fn get_hub_id(&self) -> (r: &str)
        ensures
            r@ == text_or_empty(self.hubId),
    {
        text_of(&self.hubId)
    }

    pub fn get_id(&self) -> (r: &str)
        ensures
            r@ == text_or_empty(self.id),
    {
        text_of(&self.id)
    }

    pub fn get_brand(&self) -> (r: &str)
        ensures
            r@ == text_or_empty(self.brand),
    {
        text_of(&self.brand)
    }

    pub fn get_name(&self) -> (r: &str)
        ensures
            r@ == text_or_empty(self.name),
    {
        text_of(&self.name)
    }

    pub fn get_model(&self) -> (r: &str)
        ensures
            r@ == text_or_empty(self.model),
    {
        text_of(&self.model)
    }

    pub fn get_status(&self) -> (r: &str)
        ensures
            r@ == text_or_empty(self.status),
    {
        text_of(&self.status)
    }

    pub fn get_ip_address(&self) -> (r: &str)
        ensures
            r@ == text_or_empty(self.ipAddress),
    {
        text_of(&self.ipAddress)
    }

    pub fn get_mac_address(&self) -> (r: &str)
        ensures
            r@ == text_or_empty(self.macAddress),
    {
        text_of(&self.macAddress)
    }

    pub fn get_serial(&self) -> (r: &str)
        ensures
            r@ == text_or_empty(self.serial),
    {
        text_of(&self.serial)
    }

    pub fn get_username(&self) -> (r: &str)
        ensures
            r@ == text_or_empty(self.username),
    {
        text_of(&self.username)
    }

    pub fn get_password(&self) -> (r: &str)
        ensures
            r@ == text_or_empty(self.password),
    {
        text_of(&self.password)
    }

    pub fn get_url(&self) -> (r: &str)
        ensures
            r@ == text_or_empty(self.url),
    {
        text_of(&self.url)
    }

    pub fn is_record(&self) -> (r: bool)
        ensures
            r == flag_or_false(self.record),
    {
        match self.record {
            Some(v) => v,
            None => false,
        }
    }

    pub fn is_ptz_relative(&self) -> (r: bool)
        ensures
            r == flag_or_false(self.is_ptz_relative),
    {
        match self.is_ptz_relative {
            Some(v) => v,
            None => false,
        }
    }

    /// The offered protocols, none when the field is absent.
    pub fn get_protocols(&self) -> (r: Vec<Protocol>)
        ensures
            r@ == match self.protocols {
                Some(v) => v@,
                None => Seq::<Protocol>::empty(),
            },
    {
        let mut out: Vec<Protocol> = Vec::new();
        match &self.protocols {
            Some(v) => {
                let mut i: usize = 0;
                while i < v.len()
                    invariant
                        i <= v@.len(),
                        out@ == v@.subrange(0, i as int),
                    decreases v@.len() - i,
                {
                    out.push(copy_protocol(&v[i]));
                    i = i + 1;
                    assert(out@ =~= v@.subrange(0, i as int));
                }
                assert(v@.subrange(0, i as int) =~= v@);
            },
            None => {
                assert(out@ =~= Seq::<Protocol>::empty());
            },
        }
        out
    }

    /// The authentication scheme, when the catalog gives one.
    pub fn get_authenticate(&self) -> (r: Option<&str>)
        ensures
            match r {
                Some(s) => self.authenticate is Some && s@ == self.authenticate->Some_0@,
                None => self.authenticate is None,
            },
    {
        match &self.authenticate {
            Some(v) => Some(v.as_str()),
            None => None,
        }
    }
}

/// The error body that the catalog service answers with.
#[derive(Debug, Clone)]
pub struct ErrorResponse {
    pub code: u64,
    pub message: String,
    pub status: String,
}

} // verus!

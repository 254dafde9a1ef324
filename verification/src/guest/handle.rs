//! Memory regions described by the host.

use vstd::prelude::*;
use vstd::string::*;

use crate::mem::{GuestMemoryRegion, HyperlightPEB};
use crate::text;
use crate::text::number_text;

verus! {

/// More bytes were asked for than the region holds.
#[derive(Debug, Clone, Copy, PartialEq, Eq, Structural)]
pub struct ShortRegion {
    pub requested: u64,
    pub available: u64,
}

impl ShortRegion {
    /// The message that the host is told.
    pub fn message(&self) -> (message: String)
        ensures
            message@ == "Requested "@ + text::number_text_of(self.requested as nat)
                + " bytes from user memory, but only "@ + text::number_text_of(
                self.available as nat,
            ) + " bytes are available"@,
    {
        let mut message = "Requested ".to_owned();
        message.append(number_text(self.requested).as_str());
        message.append(" bytes from user memory, but only ");
        message.append(number_text(self.available).as_str());
        message.append(" bytes are available");
        message
    }
}

/// The first `num` bytes of a region, if it holds them.
pub open spec fn front_of(region: GuestMemoryRegion, num: u64) -> Result<
    GuestMemoryRegion,
    ShortRegion,
> {
    if num > region.size {
        Err(ShortRegion { requested: num, available: region.size })
    } else {
        Ok(GuestMemoryRegion { size: num, ptr: region.ptr })
    }
}

/// Access to memory regions described by the guest's `HyperlightPEB`.
#[derive(Debug, Clone, Copy, PartialEq, Eq, Structural)]
pub struct GuestHandle {
    peb: Option<HyperlightPEB>,
}

impl GuestHandle {
    pub closed spec fn peb_view(&self) -> Option<HyperlightPEB> {
        self.peb
    }

    /// Creates a new uninitialized guest state.
    pub fn new() -> (handle: Self)
        ensures
            handle.peb_view() is None,
    {
        GuestHandle { peb: None }
    }

    /// Initializes the guest state with a given PEB.
    pub fn init(peb: HyperlightPEB) -> (handle: Self)
        ensures
            handle.peb_view() == Some(peb),
    {
        GuestHandle { peb: Some(peb) }
    }

    /// Returns the PEB
    pub fn peb(&self) -> (peb: Option<HyperlightPEB>)
        ensures
            peb == self.peb_view(),
    {
        self.peb
    }

    /// The region that holds the first `num` bytes of user memory.
    pub fn read_n_bytes_from_user_memory(&self, num: u64) -> (region: Result<
        GuestMemoryRegion,
        ShortRegion,
    >)
        requires
            self.peb_view() is Some,
        ensures
            region == front_of(self.peb_view()->0.init_data, num),
            ({
                let init_data = self.peb_view()->0.init_data;
                region == if num > init_data.size {
                    Err::<GuestMemoryRegion, ShortRegion>(
                        ShortRegion { requested: num, available: init_data.size },
                    )
                } else {
                    Ok::<GuestMemoryRegion, ShortRegion>(
                        GuestMemoryRegion { size: num, ptr: init_data.ptr },
                    )
                }
            }),
    {
        let init_data = match self.peb {
            Some(peb) => peb.init_data,
            None => GuestMemoryRegion { size: 0, ptr: 0 },
        };
        if num > init_data.size {
            return Err(ShortRegion { requested: num, available: init_data.size });
        }
        Ok(GuestMemoryRegion { size: num, ptr: init_data.ptr })
    }
}

/// A region gives its first bytes, as many as were asked for, exactly when it holds so many;
/// otherwise it tells how many it holds.
pub proof fn law_region_gives_the_bytes_it_holds(region: GuestMemoryRegion, num: u64)
    ensures
        match front_of(region, num) {
            Ok(front) => front.ptr == region.ptr && front.size == num && num <= region.size,
            Err(error) => error.requested == num && error.available == region.size && num
                > region.size,
        },
        front_of(region, region.size) == Ok::<GuestMemoryRegion, ShortRegion>(region),
{
}

} // verus!

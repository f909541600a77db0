use vstd::prelude::*;

verus! {

/// Balances of one client account. Monetary fields count 1/10000ths of a
/// currency unit; they are wide enough to hold the sum of every deposit the
/// 64-bit transaction-id space can carry.
#[derive(Debug, Clone, Copy)]
pub struct ClientInfo {
    pub on_hold: i128,
    pub available: i128,
    pub is_locked: bool,
}

/// Mathematical image of a client account, with unbounded integers.
pub ghost struct AccountState {
    pub available: int,
    pub on_hold: int,
    pub is_locked: bool,
}

impl View for ClientInfo {
    type V = AccountState;

    open spec fn view(&self) -> AccountState {
        AccountState {
            available: self.available as int,
            on_hold: self.on_hold as int,
            is_locked: self.is_locked,
        }
    }
}

impl Default for ClientInfo {
    fn default() -> (r: ClientInfo)
        ensures
            r.available == 0,
            r.on_hold == 0,
            !r.is_locked,
    {
        ClientInfo { on_hold: 0, available: 0, is_locked: false }
    }
}

} // verus!

//! The error codes a terminal reports in abort frames.

use vstd::prelude::*;

verus! {

/// The defined abort error codes; the numeric value of each is what the
/// wire carries.
#[derive(Debug, PartialEq, Eq, Structural, Clone, Copy)]
pub enum ErrorMessages {
    CardNotReadable,
    CardDataNotPresent,
    ProcessingError,
    FunctionNotPermittedForEcAndMaestroCards,
    FunctionNotPermittedForCreditAndTankCards,
    TurnoverFileFull,
    FunctionDeactivated,
    AbortViaTimeoutOrAbortKey,
    CardInBlockedList,
    WrongCurrency,
    CreditNotSufficient,
    ChipError,
    CardDataIncorrect,
    DukptEngineExhausted,
    TextNotAuthentic,
    PanNotInWhiteList,
    EndOfDayBatchNotPossible,
    CardExpired,
    CardNotYetValid,
    CardUnknown,
    FallbackToMagneticStripeNotPossibleForGiroCard1,
    FallbackToMagneticStripeNotPossibleForNonGiroCard,
    CommunicationError,
    FallbackToMagneticStripeNotPossibleForGiroCard2,
    FunctionNotPossible,
    KeyMissing,
    PinPadDefective1,
    ZvtProtocolError,
    ErrorFromDialUp,
    PleaseWait,
    ReceiverNotReady,
    RemoteStationDoesNotRespond,
    NoConnection,
    SubmissionOfGeldkarteNotPossible,
    FunctionNotAllowedDueToPciDss,
    MemoryFull,
    MerchantJournalFull,
    AlreadyReversed,
    ReversalNotPossible,
    PreAuthorizationIncorrect,
    ErrorPreAuthorization,
    VoltageSupplyToLow,
    CardLockingMechanismDefective,
    MerchantCardLocked,
    DiagnosisRequired,
    MaximumAmountExceeded,
    CardProfileInvalid,
    PaymentMethodNotSupported,
    CurrencyNotApplicable,
    AmountTooSmall,
    MaxTransactionAmountTooSmall,
    FunctionOnlyAllowedInEuro,
    PrinterNotReady,
    CashbackNotPossible,
    FunctionNotPermittedForServiceCards,
    CardInserted,
    ErrorDuringCardEject,
    ErrorDuringCardInsertion,
    RemoteMaintenanceActivated,
    CardReaderDoesNotAnswer,
    ShutterClosed,
    TerminalActivationRequired,
    MinOneGoodsGroupNotFound,
    NoGoodsGroupsTableLoaded,
    RestrictionCodeNotPermitted,
    CardCodeNotPermitted,
    FunctionNotExecutable,
    PinProcessingNotPossible,
    PinPadDefective2,
    OpenEndOfDayBatchPresent,
    EcCashOrMaestroOfflineError,
    OptError,
    OptDataNotAvailable,
    ErrorTransmittingOfflineTransactions,
    TurnoverDataSetDefective,
    NecessaryDeviceNotPresentOrDefective,
    BaudRateNotSupported,
    RegisterUnknown,
    SystemError,
}

impl ErrorMessages {
    /// The wire code of this error.
    pub open spec fn spec_code(self) -> u8 {
        match self {
            ErrorMessages::CardNotReadable => 0x64,
            ErrorMessages::CardDataNotPresent => 0x65,
            ErrorMessages::ProcessingError => 0x66,
            ErrorMessages::FunctionNotPermittedForEcAndMaestroCards => 0x67,
            ErrorMessages::FunctionNotPermittedForCreditAndTankCards => 0x68,
            ErrorMessages::TurnoverFileFull => 0x6a,
            ErrorMessages::FunctionDeactivated => 0x6b,
            ErrorMessages::AbortViaTimeoutOrAbortKey => 0x6c,
            ErrorMessages::CardInBlockedList => 0x6e,
            ErrorMessages::WrongCurrency => 0x6f,
            ErrorMessages::CreditNotSufficient => 0x71,
            ErrorMessages::ChipError => 0x72,
            ErrorMessages::CardDataIncorrect => 0x73,
            ErrorMessages::DukptEngineExhausted => 0x74,
            ErrorMessages::TextNotAuthentic => 0x75,
            ErrorMessages::PanNotInWhiteList => 0x76,
            ErrorMessages::EndOfDayBatchNotPossible => 0x77,
            ErrorMessages::CardExpired => 0x78,
            ErrorMessages::CardNotYetValid => 0x79,
            ErrorMessages::CardUnknown => 0x7a,
            ErrorMessages::FallbackToMagneticStripeNotPossibleForGiroCard1 => 0x7b,
            ErrorMessages::FallbackToMagneticStripeNotPossibleForNonGiroCard => 0x7c,
            ErrorMessages::CommunicationError => 0x7d,
            ErrorMessages::FallbackToMagneticStripeNotPossibleForGiroCard2 => 0x7e,
            ErrorMessages::FunctionNotPossible => 0x83,
            ErrorMessages::KeyMissing => 0x85,
            ErrorMessages::PinPadDefective1 => 0x89,
            ErrorMessages::ZvtProtocolError => 0x9a,
            ErrorMessages::ErrorFromDialUp => 0x9b,
            ErrorMessages::PleaseWait => 0x9c,
            ErrorMessages::ReceiverNotReady => 0xa0,
            ErrorMessages::RemoteStationDoesNotRespond => 0xa1,
            ErrorMessages::NoConnection => 0xa3,
            ErrorMessages::SubmissionOfGeldkarteNotPossible => 0xa4,
            ErrorMessages::FunctionNotAllowedDueToPciDss => 0xa5,
            ErrorMessages::MemoryFull => 0xb1,
            ErrorMessages::MerchantJournalFull => 0xb2,
            ErrorMessages::AlreadyReversed => 0xb4,
            ErrorMessages::ReversalNotPossible => 0xb5,
            ErrorMessages::PreAuthorizationIncorrect => 0xb7,
            ErrorMessages::ErrorPreAuthorization => 0xb8,
            ErrorMessages::VoltageSupplyToLow => 0xbf,
            ErrorMessages::CardLockingMechanismDefective => 0xc0,
            ErrorMessages::MerchantCardLocked => 0xc1,
            ErrorMessages::DiagnosisRequired => 0xc2,
            ErrorMessages::MaximumAmountExceeded => 0xc3,
            ErrorMessages::CardProfileInvalid => 0xc4,
            ErrorMessages::PaymentMethodNotSupported => 0xc5,
            ErrorMessages::CurrencyNotApplicable => 0xc6,
            ErrorMessages::AmountTooSmall => 0xc8,
            ErrorMessages::MaxTransactionAmountTooSmall => 0xc9,
            ErrorMessages::FunctionOnlyAllowedInEuro => 0xcb,
            ErrorMessages::PrinterNotReady => 0xcc,
            ErrorMessages::CashbackNotPossible => 0xcd,
            ErrorMessages::FunctionNotPermittedForServiceCards => 0xd2,
            ErrorMessages::CardInserted => 0xdc,
            ErrorMessages::ErrorDuringCardEject => 0xdd,
            ErrorMessages::ErrorDuringCardInsertion => 0xde,
            ErrorMessages::RemoteMaintenanceActivated => 0xe0,
            ErrorMessages::CardReaderDoesNotAnswer => 0xe2,
            ErrorMessages::ShutterClosed => 0xe3,
            ErrorMessages::TerminalActivationRequired => 0xe4,
            ErrorMessages::MinOneGoodsGroupNotFound => 0xe7,
            ErrorMessages::NoGoodsGroupsTableLoaded => 0xe8,
            ErrorMessages::RestrictionCodeNotPermitted => 0xe9,
            ErrorMessages::CardCodeNotPermitted => 0xea,
            ErrorMessages::FunctionNotExecutable => 0xeb,
            ErrorMessages::PinProcessingNotPossible => 0xec,
            ErrorMessages::PinPadDefective2 => 0xed,
            ErrorMessages::OpenEndOfDayBatchPresent => 0xf0,
            ErrorMessages::EcCashOrMaestroOfflineError => 0xf1,
            ErrorMessages::OptError => 0xf5,
            ErrorMessages::OptDataNotAvailable => 0xf6,
            ErrorMessages::ErrorTransmittingOfflineTransactions => 0xfa,
            ErrorMessages::TurnoverDataSetDefective => 0xfb,
            ErrorMessages::NecessaryDeviceNotPresentOrDefective => 0xfc,
            ErrorMessages::BaudRateNotSupported => 0xfd,
            ErrorMessages::RegisterUnknown => 0xfe,
            ErrorMessages::SystemError => 0xff,
        }
    }

    pub fn code(&self) -> (r: u8)
        ensures r == self.spec_code(),
    {
        match self {
            ErrorMessages::CardNotReadable => 0x64,
            ErrorMessages::CardDataNotPresent => 0x65,
            ErrorMessages::ProcessingError => 0x66,
            ErrorMessages::FunctionNotPermittedForEcAndMaestroCards => 0x67,
            ErrorMessages::FunctionNotPermittedForCreditAndTankCards => 0x68,
            ErrorMessages::TurnoverFileFull => 0x6a,
            ErrorMessages::FunctionDeactivated => 0x6b,
            ErrorMessages::AbortViaTimeoutOrAbortKey => 0x6c,
            ErrorMessages::CardInBlockedList => 0x6e,
            ErrorMessages::WrongCurrency => 0x6f,
            ErrorMessages::CreditNotSufficient => 0x71,
            ErrorMessages::ChipError => 0x72,
            ErrorMessages::CardDataIncorrect => 0x73,
            ErrorMessages::DukptEngineExhausted => 0x74,
            ErrorMessages::TextNotAuthentic => 0x75,
            ErrorMessages::PanNotInWhiteList => 0x76,
            ErrorMessages::EndOfDayBatchNotPossible => 0x77,
            ErrorMessages::CardExpired => 0x78,
            ErrorMessages::CardNotYetValid => 0x79,
            ErrorMessages::CardUnknown => 0x7a,
            ErrorMessages::FallbackToMagneticStripeNotPossibleForGiroCard1 => 0x7b,
            ErrorMessages::FallbackToMagneticStripeNotPossibleForNonGiroCard => 0x7c,
            ErrorMessages::CommunicationError => 0x7d,
            ErrorMessages::FallbackToMagneticStripeNotPossibleForGiroCard2 => 0x7e,
            ErrorMessages::FunctionNotPossible => 0x83,
            ErrorMessages::KeyMissing => 0x85,
            ErrorMessages::PinPadDefective1 => 0x89,
            ErrorMessages::ZvtProtocolError => 0x9a,
            ErrorMessages::ErrorFromDialUp => 0x9b,
            ErrorMessages::PleaseWait => 0x9c,
            ErrorMessages::ReceiverNotReady => 0xa0,
            ErrorMessages::RemoteStationDoesNotRespond => 0xa1,
            ErrorMessages::NoConnection => 0xa3,
            ErrorMessages::SubmissionOfGeldkarteNotPossible => 0xa4,
            ErrorMessages::FunctionNotAllowedDueToPciDss => 0xa5,
            ErrorMessages::MemoryFull => 0xb1,
            ErrorMessages::MerchantJournalFull => 0xb2,
            ErrorMessages::AlreadyReversed => 0xb4,
            ErrorMessages::ReversalNotPossible => 0xb5,
            ErrorMessages::PreAuthorizationIncorrect => 0xb7,
            ErrorMessages::ErrorPreAuthorization => 0xb8,
            ErrorMessages::VoltageSupplyToLow => 0xbf,
            ErrorMessages::CardLockingMechanismDefective => 0xc0,
            ErrorMessages::MerchantCardLocked => 0xc1,
            ErrorMessages::DiagnosisRequired => 0xc2,
            ErrorMessages::MaximumAmountExceeded => 0xc3,
            ErrorMessages::CardProfileInvalid => 0xc4,
            ErrorMessages::PaymentMethodNotSupported => 0xc5,
            ErrorMessages::CurrencyNotApplicable => 0xc6,
            ErrorMessages::AmountTooSmall => 0xc8,
            ErrorMessages::MaxTransactionAmountTooSmall => 0xc9,
            ErrorMessages::FunctionOnlyAllowedInEuro => 0xcb,
            ErrorMessages::PrinterNotReady => 0xcc,
            ErrorMessages::CashbackNotPossible => 0xcd,
            ErrorMessages::FunctionNotPermittedForServiceCards => 0xd2,
            ErrorMessages::CardInserted => 0xdc,
            ErrorMessages::ErrorDuringCardEject => 0xdd,
            ErrorMessages::ErrorDuringCardInsertion => 0xde,
            ErrorMessages::RemoteMaintenanceActivated => 0xe0,
            ErrorMessages::CardReaderDoesNotAnswer => 0xe2,
            ErrorMessages::ShutterClosed => 0xe3,
            ErrorMessages::TerminalActivationRequired => 0xe4,
            ErrorMessages::MinOneGoodsGroupNotFound => 0xe7,
            ErrorMessages::NoGoodsGroupsTableLoaded => 0xe8,
            ErrorMessages::RestrictionCodeNotPermitted => 0xe9,
            ErrorMessages::CardCodeNotPermitted => 0xea,
            ErrorMessages::FunctionNotExecutable => 0xeb,
            ErrorMessages::PinProcessingNotPossible => 0xec,
            ErrorMessages::PinPadDefective2 => 0xed,
            ErrorMessages::OpenEndOfDayBatchPresent => 0xf0,
            ErrorMessages::EcCashOrMaestroOfflineError => 0xf1,
            ErrorMessages::OptError => 0xf5,
            ErrorMessages::OptDataNotAvailable => 0xf6,
            ErrorMessages::ErrorTransmittingOfflineTransactions => 0xfa,
            ErrorMessages::TurnoverDataSetDefective => 0xfb,
            ErrorMessages::NecessaryDeviceNotPresentOrDefective => 0xfc,
            ErrorMessages::BaudRateNotSupported => 0xfd,
            ErrorMessages::RegisterUnknown => 0xfe,
            ErrorMessages::SystemError => 0xff,
        }
    }

    /// The error a wire code stands for, if it is defined; every defined
    /// error maps back to its own code.
    pub fn from_u8(code: u8) -> (r: Option<ErrorMessages>)
        ensures
            r matches Some(e) ==> e.spec_code() == code,
            r is None ==> forall|e: ErrorMessages| #[trigger] e.spec_code() != code,
    {
        let r = match code {
            0x64 => Some(ErrorMessages::CardNotReadable),
            0x65 => Some(ErrorMessages::CardDataNotPresent),
            0x66 => Some(ErrorMessages::ProcessingError),
            0x67 => Some(ErrorMessages::FunctionNotPermittedForEcAndMaestroCards),
            0x68 => Some(ErrorMessages::FunctionNotPermittedForCreditAndTankCards),
            0x6a => Some(ErrorMessages::TurnoverFileFull),
            0x6b => Some(ErrorMessages::FunctionDeactivated),
            0x6c => Some(ErrorMessages::AbortViaTimeoutOrAbortKey),
            0x6e => Some(ErrorMessages::CardInBlockedList),
            0x6f => Some(ErrorMessages::WrongCurrency),
            0x71 => Some(ErrorMessages::CreditNotSufficient),
            0x72 => Some(ErrorMessages::ChipError),
            0x73 => Some(ErrorMessages::CardDataIncorrect),
            0x74 => Some(ErrorMessages::DukptEngineExhausted),
            0x75 => Some(ErrorMessages::TextNotAuthentic),
            0x76 => Some(ErrorMessages::PanNotInWhiteList),
            0x77 => Some(ErrorMessages::EndOfDayBatchNotPossible),
            0x78 => Some(ErrorMessages::CardExpired),
            0x79 => Some(ErrorMessages::CardNotYetValid),
            0x7a => Some(ErrorMessages::CardUnknown),
            0x7b => Some(ErrorMessages::FallbackToMagneticStripeNotPossibleForGiroCard1),
            0x7c => Some(ErrorMessages::FallbackToMagneticStripeNotPossibleForNonGiroCard),
            0x7d => Some(ErrorMessages::CommunicationError),
            0x7e => Some(ErrorMessages::FallbackToMagneticStripeNotPossibleForGiroCard2),
            0x83 => Some(ErrorMessages::FunctionNotPossible),
            0x85 => Some(ErrorMessages::KeyMissing),
            0x89 => Some(ErrorMessages::PinPadDefective1),
            0x9a => Some(ErrorMessages::ZvtProtocolError),
            0x9b => Some(ErrorMessages::ErrorFromDialUp),
            0x9c => Some(ErrorMessages::PleaseWait),
            0xa0 => Some(ErrorMessages::ReceiverNotReady),
            0xa1 => Some(ErrorMessages::RemoteStationDoesNotRespond),
            0xa3 => Some(ErrorMessages::NoConnection),
            0xa4 => Some(ErrorMessages::SubmissionOfGeldkarteNotPossible),
            0xa5 => Some(ErrorMessages::FunctionNotAllowedDueToPciDss),
            0xb1 => Some(ErrorMessages::MemoryFull),
            0xb2 => Some(ErrorMessages::MerchantJournalFull),
            0xb4 => Some(ErrorMessages::AlreadyReversed),
            0xb5 => Some(ErrorMessages::ReversalNotPossible),
            0xb7 => Some(ErrorMessages::PreAuthorizationIncorrect),
            0xb8 => Some(ErrorMessages::ErrorPreAuthorization),
            0xbf => Some(ErrorMessages::VoltageSupplyToLow),
            0xc0 => Some(ErrorMessages::CardLockingMechanismDefective),
            0xc1 => Some(ErrorMessages::MerchantCardLocked),
            0xc2 => Some(ErrorMessages::DiagnosisRequired),
            0xc3 => Some(ErrorMessages::MaximumAmountExceeded),
            0xc4 => Some(ErrorMessages::CardProfileInvalid),
            0xc5 => Some(ErrorMessages::PaymentMethodNotSupported),
            0xc6 => Some(ErrorMessages::CurrencyNotApplicable),
            0xc8 => Some(ErrorMessages::AmountTooSmall),
            0xc9 => Some(ErrorMessages::MaxTransactionAmountTooSmall),
            0xcb => Some(ErrorMessages::FunctionOnlyAllowedInEuro),
            0xcc => Some(ErrorMessages::PrinterNotReady),
            0xcd => Some(ErrorMessages::CashbackNotPossible),
            0xd2 => Some(ErrorMessages::FunctionNotPermittedForServiceCards),
            0xdc => Some(ErrorMessages::CardInserted),
            0xdd => Some(ErrorMessages::ErrorDuringCardEject),
            0xde => Some(ErrorMessages::ErrorDuringCardInsertion),
            0xe0 => Some(ErrorMessages::RemoteMaintenanceActivated),
            0xe2 => Some(ErrorMessages::CardReaderDoesNotAnswer),
            0xe3 => Some(ErrorMessages::ShutterClosed),
            0xe4 => Some(ErrorMessages::TerminalActivationRequired),
            0xe7 => Some(ErrorMessages::MinOneGoodsGroupNotFound),
            0xe8 => Some(ErrorMessages::NoGoodsGroupsTableLoaded),
            0xe9 => Some(ErrorMessages::RestrictionCodeNotPermitted),
            0xea => Some(ErrorMessages::CardCodeNotPermitted),
            0xeb => Some(ErrorMessages::FunctionNotExecutable),
            0xec => Some(ErrorMessages::PinProcessingNotPossible),
            0xed => Some(ErrorMessages::PinPadDefective2),
            0xf0 => Some(ErrorMessages::OpenEndOfDayBatchPresent),
            0xf1 => Some(ErrorMessages::EcCashOrMaestroOfflineError),
            0xf5 => Some(ErrorMessages::OptError),
            0xf6 => Some(ErrorMessages::OptDataNotAvailable),
            0xfa => Some(ErrorMessages::ErrorTransmittingOfflineTransactions),
            0xfb => Some(ErrorMessages::TurnoverDataSetDefective),
            0xfc => Some(ErrorMessages::NecessaryDeviceNotPresentOrDefective),
            0xfd => Some(ErrorMessages::BaudRateNotSupported),
            0xfe => Some(ErrorMessages::RegisterUnknown),
            0xff => Some(ErrorMessages::SystemError),
            _ => None,
        };
        proof {
            if r is None {
                assert forall|e: ErrorMessages| #[trigger] e.spec_code() != code by {}
            }
        }
        r
    }
}

} // verus!
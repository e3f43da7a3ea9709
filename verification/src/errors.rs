//! Errors of services that are paced by an endpoint controller.

use crate::ScheduleError;
use vstd::prelude::*;

verus! {

/// Errors produced by a paced service.
#[derive(Debug)]
pub enum ServiceError<E> {
    /// The request could not enter the endpoint's bounded scheduling horizon.
    ///
    /// This is transient endpoint backpressure, not an endpoint health
    /// failure. A higher-level balancer should try another endpoint or
    /// propagate backpressure upstream rather than ejecting this endpoint.
    Rejected(ScheduleError),
    /// The wrapped service returned an error.
    Inner(E),
}

impl<E> ServiceError<E> {
    /// Returns the scheduling error when admission was rejected.
    pub fn rejected(&self) -> (r: Option<ScheduleError>)
        ensures
            r == (match *self {
                ServiceError::Rejected(error) => Some(error),
                ServiceError::Inner(_) => None,
            }),
    {
        match self {
            ServiceError::Rejected(error) => Some(*error),
            ServiceError::Inner(_) => None,
        }
    }

    /// Returns the wrapped service error when the request was dispatched.
    pub fn inner(&self) -> (r: Option<&E>)
        ensures
            match *self {
                ServiceError::Rejected(_) => r is None,
                ServiceError::Inner(error) => r == Some(&error),
            },
    {
        match self {
            ServiceError::Rejected(_) => None,
            ServiceError::Inner(error) => Some(error),
        }
    }
}

/// Errors produced by a balancer that discovers its endpoints.
#[derive(Debug)]
pub enum DnsServiceError<D, E> {
    /// DNS lookup or cache initialization failed.
    Discovery(D),
    /// Neither sampled endpoint could admit the request.
    Rejected(ScheduleError),
    /// The selected endpoint's inner service failed.
    Inner(E),
}

impl<D, E> DnsServiceError<D, E> {
    /// Returns the admission error, when selection was rejected.
    pub fn rejected(&self) -> (r: Option<ScheduleError>)
        ensures
            r == (match *self {
                DnsServiceError::Rejected(error) => Some(error),
                _ => None,
            }),
    {
        match self {
            DnsServiceError::Rejected(error) => Some(*error),
            DnsServiceError::Discovery(_) => None,
            DnsServiceError::Inner(_) => None,
        }
    }

    /// Returns the discovery error, when DNS failed.
    pub fn discovery(&self) -> (r: Option<&D>)
        ensures
            match *self {
                DnsServiceError::Discovery(error) => r == Some(&error),
                _ => r is None,
            },
    {
        match self {
            DnsServiceError::Discovery(error) => Some(error),
            DnsServiceError::Rejected(_) => None,
            DnsServiceError::Inner(_) => None,
        }
    }

    /// Returns the inner-service error, when dispatch failed.
    pub fn inner(&self) -> (r: Option<&E>)
        ensures
            match *self {
                DnsServiceError::Inner(error) => r == Some(&error),
                _ => r is None,
            },
    {
        match self {
            DnsServiceError::Inner(error) => Some(error),
            DnsServiceError::Discovery(_) => None,
            DnsServiceError::Rejected(_) => None,
        }
    }
}

} // verus!

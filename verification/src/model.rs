use vstd::prelude::*;

verus! {

/// One quotation shown on the home screen.
pub struct Quote {
    pub text: String,
    pub author: String,
}

/// A work-history entry.
pub struct Job {
    pub title: String,
    pub company: String,
    pub period: String,
    pub description: String,
}

/// A project entry.
pub struct Project {
    pub name: String,
    pub description: String,
    pub url: String,
    pub tags: Vec<String>,
}

/// A link to a social profile.
pub struct Social {
    pub label: String,
    pub url: String,
}

/// The contact address shown on the home screen.
pub struct PrimaryEmail {
    pub label: String,
    pub url: String,
}

/// Shape of the separately served `adjectives` document.
pub struct AdjectivesDoc {
    pub location: String,
    pub adjectives: Vec<String>,
}

/// Shape of the separately served `socials` document.
pub struct SocialsDoc {
    pub socials: Vec<Social>,
    pub primary_email: PrimaryEmail,
}

/// Shape of the bundled fallback document, which holds everything at once.
pub struct FallbackDoc {
    pub location: String,
    pub adjectives: Vec<String>,
    pub jobs: Vec<Job>,
    pub projects: Vec<Project>,
    pub quotes: Vec<Quote>,
    pub primary_email: PrimaryEmail,
    pub socials: Vec<Social>,
}

/// A complete snapshot of the site content.
pub struct SiteData {
    pub adjectives: Vec<String>,
    pub jobs: Vec<Job>,
    pub projects: Vec<Project>,
    pub quotes: Vec<Quote>,
    pub socials: Vec<Social>,
    pub primary_email: PrimaryEmail,
    pub location: String,
}

impl SiteData {
    /// Assembles a snapshot from the five separately fetched documents.
    pub fn from_documents(
        adjectives: AdjectivesDoc,
        jobs: Vec<Job>,
        projects: Vec<Project>,
        quotes: Vec<Quote>,
        socials: SocialsDoc,
    ) -> (data: SiteData)
        ensures
            data.adjectives == adjectives.adjectives,
            data.location == adjectives.location,
            data.jobs == jobs,
            data.projects == projects,
            data.quotes == quotes,
            data.socials == socials.socials,
            data.primary_email == socials.primary_email,
    {
        SiteData {
            adjectives: adjectives.adjectives,
            jobs,
            projects,
            quotes,
            socials: socials.socials,
            primary_email: socials.primary_email,
            location: adjectives.location,
        }
    }

    /// Assembles a snapshot from the bundled fallback document.
    pub fn from_fallback(doc: FallbackDoc) -> (data: SiteData)
        ensures
            data.adjectives == doc.adjectives,
            data.location == doc.location,
            data.jobs == doc.jobs,
            data.projects == doc.projects,
            data.quotes == doc.quotes,
            data.socials == doc.socials,
            data.primary_email == doc.primary_email,
    {
        SiteData {
            adjectives: doc.adjectives,
            jobs: doc.jobs,
            projects: doc.projects,
            quotes: doc.quotes,
            socials: doc.socials,
            primary_email: doc.primary_email,
            location: doc.location,
        }
    }
}

} // verus!

use vstd::prelude::*;

verus! {

/// One skill entry of a registration record.
#[derive(Clone)]
pub struct Skill {
    pub check: bool,
    pub level: u8,
    pub name: String,
}

/// The graduation year as the registration store holds it: the field is
/// sometimes text and sometimes a number, so both shapes are kept.
#[derive(Clone)]
pub enum GradYear {
    Str(String),
    Num(u16),
}

/// One member registration record as the external document database stores
/// it. The core only carries these records through; it never interprets
/// them.
#[derive(Clone)]
pub struct RegistrationData {
    pub admin: bool,
    pub cad_fill_in: String,
    pub cad_skills: Vec<Skill>,
    pub change_reason: String,
    pub change_teams: bool,
    pub email: String,
    pub first_experience: bool,
    pub first_name: String,
    pub grad_year: GradYear,
    pub last_name: String,
    pub paid: bool,
    pub parent_coc: bool,
    pub parent_email: String,
    pub parent_name: String,
    pub parent_phone: String,
    pub permission_form: bool,
    pub phone: String,
    pub previous_experience: bool,
    pub programming_skills: Vec<Skill>,
    pub registration_status: String,
    pub student_coc: bool,
    pub team_preference: Vec<String>,
}

} // verus!
